use vstd::prelude::*;

use crate::error::DbError;

verus! {

broadcast use vstd::string::group_string_axioms;

/// The state of the lexer after some characters: the tokens so far, the
/// token being read, and whether a quoted stretch is open.
pub struct LexState {
    pub tokens: Seq<Seq<char>>,
    pub current: Seq<char>,
    pub in_quotes: bool,
}

/// `tokens` with `current` added when it is not empty.
pub open spec fn flush(tokens: Seq<Seq<char>>, current: Seq<char>) -> Seq<Seq<char>> {
    if current.len() > 0 {
        tokens.push(current)
    } else {
        tokens
    }
}

/// The lexer reading one character.  A double quote opens or closes a
/// quoted stretch and is dropped; outside quotes a space ends a token, and
/// each of `(`, `)` and `,` ends a token and is a token of its own; any
/// other character extends the current token.
pub open spec fn lex_step(st: LexState, ch: char) -> LexState {
    if ch == '"' {
        LexState { in_quotes: !st.in_quotes, ..st }
    } else if ch == ' ' && !st.in_quotes {
        LexState { tokens: flush(st.tokens, st.current), current: Seq::empty(), ..st }
    } else if (ch == '(' || ch == ')' || ch == ',') && !st.in_quotes {
        LexState {
            tokens: flush(st.tokens, st.current).push(seq![ch]),
            current: Seq::empty(),
            ..st
        }
    } else {
        LexState { current: st.current.push(ch), ..st }
    }
}

/// The lexer state after reading `chars`.
pub open spec fn lex_run(chars: Seq<char>) -> LexState
    decreases chars.len(),
{
    if chars.len() == 0 {
        LexState { tokens: Seq::empty(), current: Seq::empty(), in_quotes: false }
    } else {
        lex_step(lex_run(chars.drop_last()), chars.last())
    }
}

/// The tokens of `chars`.
pub open spec fn lex_tokens(chars: Seq<char>) -> Seq<Seq<char>> {
    let st = lex_run(chars);
    flush(st.tokens, st.current)
}

/// The text of each string.
pub open spec fn texts(v: Seq<String>) -> Seq<Seq<char>> {
    v.map_values(|s: String| s@)
}

/// `String::push`: adds `c` at the end of `s`.
#[verifier::external_body]
pub(crate) fn push_char(s: &mut String, c: char)
    ensures
        final(s)@ == old(s)@.push(c),
{
    s.push(c);
}

/// Splits a statement into tokens: see [`lex_step`].
pub fn lex(input: &str) -> (tokens: Vec<String>)
    ensures
        texts(tokens@) == lex_tokens(input@),
{
    let mut tokens: Vec<String> = Vec::new();
    let mut current = String::new();
    let mut in_quotes = false;
    let ghost chars = input@;
    for ch in it: input.chars()
        invariant
            chars == input@,
            it.seq() == chars,
            ({
                let st = lex_run(chars.take(it.index() as int));
                &&& texts(tokens@) == st.tokens
                &&& current@ == st.current
                &&& in_quotes == st.in_quotes
            }),
    {
        proof {
            assert(chars.take(it.index() + 1).drop_last() =~= chars.take(it.index() as int));
        }
        if ch == '"' {
            in_quotes = !in_quotes;
        } else if ch == ' ' && !in_quotes {
            if !current.as_str().is_empty() {
                let tok = current;
                current = String::new();
                tokens.push(tok);
            }
        } else if (ch == '(' || ch == ')' || ch == ',') && !in_quotes {
            if !current.as_str().is_empty() {
                let tok = current;
                current = String::new();
                tokens.push(tok);
            }
            let mut single = String::new();
            push_char(&mut single, ch);
            tokens.push(single);
        } else {
            push_char(&mut current, ch);
        }
        proof {
            assert(texts(tokens@) =~= lex_run(chars.take(it.index() + 1)).tokens);
        }
    }
    proof {
        assert(chars.take(chars.len() as int) =~= chars);
    }
    if !current.as_str().is_empty() {
        tokens.push(current);
    }
    proof {
        assert(texts(tokens@) =~= lex_tokens(input@));
    }
    tokens
}


/// The number of double quotes in `s`.
pub open spec fn quote_count(s: Seq<char>) -> nat
    decreases s.len(),
{
    if s.len() == 0 {
        0
    } else if s.last() == '"' {
        quote_count(s.drop_last()) + 1
    } else {
        quote_count(s.drop_last())
    }
}

/// Whether a quoted stretch is open after `s`: an odd number of double
/// quotes.
pub open spec fn quote_open(s: Seq<char>) -> bool {
    quote_count(s) % 2 == 1
}

/// The characters of `s` that make up text: all but the double quotes and
/// the spaces outside quotes.
pub open spec fn text_chars(s: Seq<char>) -> Seq<char>
    decreases s.len(),
{
    if s.len() == 0 {
        Seq::empty()
    } else {
        let c = s.last();
        let before = text_chars(s.drop_last());
        if c == '"' || (c == ' ' && !quote_open(s.drop_last())) {
            before
        } else {
            before.push(c)
        }
    }
}

proof fn lemma_lex_run_text(chars: Seq<char>)
    ensures
        lex_run(chars).tokens.flatten() + lex_run(chars).current == text_chars(chars),
        lex_run(chars).in_quotes == quote_open(chars),
    decreases chars.len(),
{
    broadcast use Seq::lemma_flatten_push;

    if chars.len() > 0 {
        let p = chars.drop_last();
        let c = chars.last();
        lemma_lex_run_text(p);
        let st = lex_run(p);
        let f = flush(st.tokens, st.current);
        assert(f.flatten() =~= st.tokens.flatten() + st.current);
        if c == '(' || c == ')' || c == ',' {
            assert(seq![c] =~= Seq::<char>::empty().push(c));
        }
        assert(st.tokens.flatten() + st.current.push(c) =~= (st.tokens.flatten() + st.current).push(c));
        assert(f.push(seq![c]).flatten() =~= (st.tokens.flatten() + st.current).push(c));
        assert(lex_run(chars).tokens.flatten() + lex_run(chars).current =~= text_chars(chars));
    }
}

/// The lexer keeps the text it reads: the tokens of `chars`, joined, are
/// exactly its characters other than the double quotes and the spaces
/// outside quotes, unchanged and in order; in particular quoted text
/// reaches its token with every character, capitals included, as written.
pub proof fn law_lex_keeps_text(chars: Seq<char>)
    ensures
        lex_tokens(chars).flatten() == text_chars(chars),
{
    broadcast use Seq::lemma_flatten_push;

    lemma_lex_run_text(chars);
    let st = lex_run(chars);
    assert(flush(st.tokens, st.current).flatten() =~= st.tokens.flatten() + st.current);
}

proof fn lemma_lex_inside_quotes(b: Seq<char>, s: Seq<char>, j: int)
    requires
        lex_run(b).in_quotes,
        lex_run(b).current.len() == 0,
        0 <= j <= s.len(),
        forall|i: int| 0 <= i < s.len() ==> s[i] != '"',
    ensures
        lex_run(b + s.take(j)) == (LexState { current: s.take(j), ..lex_run(b) }),
    decreases j,
{
    if j == 0 {
        assert(b + s.take(0) =~= b);
        assert(lex_run(b).current =~= s.take(0));
    } else {
        lemma_lex_inside_quotes(b, s, j - 1);
        assert((b + s.take(j)).drop_last() =~= b + s.take(j - 1));
        assert((b + s.take(j)).last() == s[j - 1]);
        assert(s.take(j - 1).push(s[j - 1]) =~= s.take(j));
    }
}

/// Quoted text becomes one token as written: after any statement text `a`
/// that leaves no quote open, a space and then `s` between double quotes,
/// for any non-empty `s` without a double quote, adds exactly the token
/// `s` to the tokens of `a`; spaces, parentheses, commas and capitals in
/// `s` are kept.
pub proof fn law_lex_quoted_token(a: Seq<char>, s: Seq<char>)
    requires
        !quote_open(a),
        s.len() > 0,
        forall|i: int| 0 <= i < s.len() ==> s[i] != '"',
    ensures
        lex_tokens(a + seq![' ', '"'] + s + seq!['"']) == lex_tokens(a).push(s),
{
    lemma_lex_run_text(a);
    let b = a + seq![' ', '"'];
    assert(b.drop_last() =~= a.push(' '));
    assert(a.push(' ').drop_last() =~= a);
    assert(b.last() == '"');
    assert(a.push(' ').last() == ' ');
    assert(lex_run(a.push(' ')) == lex_step(lex_run(a), ' '));
    assert(lex_run(b) == lex_step(lex_run(a.push(' ')), '"'));
    assert(lex_run(b).tokens == lex_tokens(a));
    assert(lex_run(b).current.len() == 0);
    lemma_lex_inside_quotes(b, s, s.len() as int);
    assert(s.take(s.len() as int) =~= s);
    let all = a + seq![' ', '"'] + s + seq!['"'];
    assert(all.drop_last() =~= b + s);
    assert(all.last() == '"');
    assert(lex_run(all) == lex_step(lex_run(b + s), '"'));
}

/// Reading `y` after text `p` that leaves no token open and no quote open
/// goes on as reading `y` alone, after the tokens of `p`.
proof fn lemma_lex_run_after(p: Seq<char>, y: Seq<char>, j: int)
    requires
        lex_run(p).current.len() == 0,
        !lex_run(p).in_quotes,
        0 <= j <= y.len(),
    ensures
        lex_run(p + y.take(j)) == (LexState {
            tokens: lex_run(p).tokens + lex_run(y.take(j)).tokens,
            ..lex_run(y.take(j))
        }),
    decreases j,
{
    let t0 = lex_run(p).tokens;
    if j == 0 {
        assert(p + y.take(0) =~= p);
        assert(y.take(0) =~= Seq::<char>::empty());
        assert(lex_run(y.take(0)).current =~= lex_run(p).current);
        assert(t0 + lex_run(y.take(0)).tokens =~= t0);
    } else {
        lemma_lex_run_after(p, y, j - 1);
        assert((p + y.take(j)).drop_last() =~= p + y.take(j - 1));
        assert((p + y.take(j)).last() == y[j - 1]);
        assert(y.take(j).drop_last() =~= y.take(j - 1));
        assert(y.take(j).last() == y[j - 1]);
        let a = lex_run(y.take(j - 1));
        let c = y[j - 1];
        assert(flush(t0 + a.tokens, a.current) =~= t0 + flush(a.tokens, a.current));
        assert(flush(t0 + a.tokens, a.current).push(seq![c]) =~= t0 + flush(a.tokens, a.current).push(seq![c]));
        assert(lex_run(p + y.take(j)).tokens =~= t0 + lex_run(y.take(j)).tokens);
    }
}

/// A space or a `(`, `)` or `,` outside quotes splits a statement: the
/// tokens of `x`, then the character as a token of its own unless it is a
/// space, then the tokens of `y`, whatever `y` holds.
pub proof fn law_lex_split(x: Seq<char>, c: char, y: Seq<char>)
    requires
        !quote_open(x),
        c == ' ' || c == '(' || c == ')' || c == ',',
    ensures
        lex_tokens(x.push(c) + y) == lex_tokens(x) + (if c == ' ' {
            Seq::<Seq<char>>::empty()
        } else {
            seq![seq![c]]
        }) + lex_tokens(y),
{
    lemma_lex_run_text(x);
    let p = x.push(c);
    assert(p.drop_last() =~= x);
    assert(lex_run(p) == lex_step(lex_run(x), c));
    lemma_lex_run_after(p, y, y.len() as int);
    assert(y.take(y.len() as int) =~= y);
    let a = lex_run(y);
    let mid = if c == ' ' {
        Seq::<Seq<char>>::empty()
    } else {
        seq![seq![c]]
    };
    assert(lex_run(p).tokens =~= lex_tokens(x) + mid);
    assert(flush(lex_run(p).tokens + a.tokens, a.current) =~= lex_tokens(x) + mid + flush(a.tokens, a.current));
}

/// A word with no space, double quote, parenthesis or comma is one token.
pub proof fn law_lex_word(w: Seq<char>)
    requires
        w.len() > 0,
        forall|i: int|
            0 <= i < w.len() ==> #[trigger] w[i] != ' ' && w[i] != '"' && w[i] != '(' && w[i] != ')' && w[i]
                != ',',
    ensures
        lex_tokens(w) == seq![w],
{
    lemma_lex_word_run(w, w.len() as int);
    assert(w.take(w.len() as int) =~= w);
}

proof fn lemma_lex_word_run(w: Seq<char>, j: int)
    requires
        0 <= j <= w.len(),
        forall|i: int|
            0 <= i < w.len() ==> #[trigger] w[i] != ' ' && w[i] != '"' && w[i] != '(' && w[i] != ')' && w[i]
                != ',',
    ensures
        lex_run(w.take(j)) == (LexState { tokens: Seq::empty(), current: w.take(j), in_quotes: false }),
    decreases j,
{
    if j == 0 {
        assert(w.take(0) =~= Seq::<char>::empty());
    } else {
        lemma_lex_word_run(w, j - 1);
        assert(w.take(j).drop_last() =~= w.take(j - 1));
        assert(w.take(j).last() == w[j - 1]);
        assert(w.take(j - 1).push(w[j - 1]) =~= w.take(j));
    }
}

/// The characters of `s`, in order.
fn chars_of(s: &str) -> (v: Vec<char>)
    ensures
        v@ == s@,
{
    let mut v: Vec<char> = Vec::new();
    let ghost chars = s@;
    for ch in it: s.chars()
        invariant
            chars == s@,
            it.seq() == chars,
            v@ == chars.take(it.index() as int),
    {
        v.push(ch);
        proof {
            assert(v@ =~= chars.take(it.index() + 1));
        }
    }
    proof {
        assert(chars.take(chars.len() as int) =~= chars);
    }
    v
}

/// Whether `c` is an ASCII decimal digit.
pub open spec fn is_digit(c: char) -> bool {
    '0' <= c <= '9'
}

/// The value of a sequence of decimal digits.
pub open spec fn digits_value(s: Seq<char>) -> int
    decreases s.len(),
{
    if s.len() == 0 {
        0
    } else {
        10 * digits_value(s.drop_last()) + (s.last() as int - '0' as int)
    }
}

/// The digits of a number, after an optional sign.
pub open spec fn unsigned_part(s: Seq<char>) -> Seq<char> {
    if s.len() > 0 && (s[0] == '-' || s[0] == '+') {
        s.drop_first()
    } else {
        s
    }
}

/// The `i64` that `s` writes in decimal: an optional `+` or `-`, then one
/// or more ASCII digits, with a value in range.
pub open spec fn decimal_i64(s: Seq<char>) -> Option<i64> {
    let body = unsigned_part(s);
    let v = if s.len() > 0 && s[0] == '-' {
        -digits_value(body)
    } else {
        digits_value(body)
    };
    if body.len() > 0 && (forall|i: int| 0 <= i < body.len() ==> #[trigger] is_digit(body[i]))
        && i64::MIN <= v <= i64::MAX {
        Some(v as i64)
    } else {
        None
    }
}

proof fn lemma_digits_value_nonneg(s: Seq<char>)
    requires
        forall|i: int| 0 <= i < s.len() ==> #[trigger] is_digit(s[i]),
    ensures
        digits_value(s) >= 0,
    decreases s.len(),
{
    if s.len() > 0 {
        let t = s.drop_last();
        assert forall|i: int| 0 <= i < t.len() implies #[trigger] is_digit(t[i]) by {
            assert(t[i] == s[i]);
        }
        lemma_digits_value_nonneg(t);
        assert(is_digit(s[s.len() - 1]));
        assert(s.last() as int - '0' as int >= 0);
    }
}

/// Reads a decimal `i64` as `str::parse::<i64>` does: see [`decimal_i64`].
pub fn parse_i64(s: &str) -> (r: Option<i64>)
    ensures
        r == decimal_i64(s@),
{
    let chars = chars_of(s);
    let n = chars.len();
    let mut start: usize = 0;
    let mut neg = false;
    if n > 0 && (chars[0] == '-' || chars[0] == '+') {
        neg = chars[0] == '-';
        start = 1;
    }
    let ghost body = unsigned_part(s@);
    proof {
        assert(body =~= chars@.subrange(start as int, n as int));
    }
    if start >= n {
        return None;
    }
    let limit: u128 = 9223372036854775808;
    let mut acc: u128 = 0;
    let mut over = false;
    let mut i = start;
    while i < n
        invariant
            chars@ == s@,
            n == chars@.len(),
            start <= i <= n,
            body == chars@.subrange(start as int, n as int),
            body == unsigned_part(s@),
            limit == 9223372036854775808u128,
            forall|j: int| start <= j < i ==> #[trigger] is_digit(chars@[j]),
            !over ==> acc == digits_value(chars@.subrange(start as int, i as int)) && acc <= limit,
            over ==> digits_value(chars@.subrange(start as int, i as int)) > limit,
        decreases n - i,
    {
        let c = chars[i];
        if !('0' <= c && c <= '9') {
            proof {
                assert(body[i - start] == chars@[i as int]);
                assert(!is_digit(body[i - start]));
            }
            return None;
        }
        let ghost pre = chars@.subrange(start as int, i as int);
        let ghost post = chars@.subrange(start as int, i + 1);
        proof {
            assert(post.drop_last() =~= pre);
            assert forall|j: int| 0 <= j < pre.len() implies #[trigger] is_digit(pre[j]) by {
                assert(pre[j] == chars@[start + j]);
            }
            lemma_digits_value_nonneg(pre);
        }
        if !over {
            assert(acc <= limit);
            let d = (c as u32 - '0' as u32) as u128;
            let next = acc * 10 + d;
            if next > limit {
                over = true;
            } else {
                acc = next;
            }
        }
        i = i + 1;
    }
    proof {
        assert(chars@.subrange(start as int, n as int) == body);
        assert forall|j: int| 0 <= j < body.len() implies #[trigger] is_digit(body[j]) by {
            assert(body[j] == chars@[start + j]);
        }
    }
    if over {
        return None;
    }
    if neg {
        let v = (0 - (acc as i128)) as i64;
        Some(v)
    } else if acc <= 9223372036854775807 {
        Some(acc as i64)
    } else {
        None
    }
}


/// A parsed statement.
#[derive(Debug, PartialEq)]
pub enum Stmt {
    Insert { table: String, id: i64, fields: Vec<String> },
    Select { table: String, where_id: Option<i64> },
}

/// The abstract value of a [`Stmt`].
pub enum StmtView {
    Insert { table: Seq<char>, id: i64, fields: Seq<Seq<char>> },
    Select { table: Seq<char>, where_id: Option<i64> },
}

impl View for Stmt {
    type V = StmtView;

    open spec fn view(&self) -> StmtView {
        match self {
            Stmt::Insert { table, id, fields } => StmtView::Insert {
                table: table@,
                id: *id,
                fields: texts(fields@),
            },
            Stmt::Select { table, where_id } => StmtView::Select { table: table@, where_id: *where_id },
        }
    }
}

/// What `str::to_uppercase` gives for `s`: the full Unicode upper case
/// mapping, which may change the length of the text.
pub uninterp spec fn upper_text(s: Seq<char>) -> Seq<char>;

/// The upper-case forms of the tokens `t`.
pub open spec fn uppers(t: Seq<Seq<char>>) -> Seq<Seq<char>> {
    t.map_values(|x: Seq<char>| upper_text(x))
}

/// The upper case of an ASCII character: `a` to `z` become `A` to `Z`.
pub open spec fn ascii_upper(c: char) -> char {
    if 'a' <= c <= 'z' {
        ((c as int) - 32) as char
    } else {
        c
    }
}

/// Every character of `t` is ASCII.
pub open spec fn is_ascii_text(t: Seq<char>) -> bool {
    forall|i: int| 0 <= i < t.len() ==> (#[trigger] t[i] as int) < 128
}

/// `t` with each ASCII letter `a` to `z` made `A` to `Z`.
pub open spec fn ascii_upper_text(t: Seq<char>) -> Seq<char> {
    t.map_values(|c: char| ascii_upper(c))
}

/// The upper-case forms of the tokens `ts` as far as they are known: for
/// an ASCII token its letters made upper case, for any other token what
/// [`upper_text`] names.
pub open spec fn known_uppers(ts: Seq<Seq<char>>) -> Seq<Seq<char>> {
    ts.map_values(
        |x: Seq<char>|
            if is_ascii_text(x) {
                ascii_upper_text(x)
            } else {
                upper_text(x)
            },
    )
}

/// `str::to_uppercase`: its result is named by [`upper_text`]; on ASCII
/// text it maps each letter `a` to `z` to `A` to `Z` and keeps every other
/// character.
#[verifier::external_body]
fn to_upper(s: &str) -> (r: String)
    ensures
        r@ == upper_text(s@),
        is_ascii_text(s@) ==> r@ == ascii_upper_text(s@),
{
    s.to_uppercase()
}

/// Whether `a` and `b` hold the same text.
fn same_text(a: &str, b: &str) -> (r: bool)
    ensures
        r == (a@ == b@),
{
    let x = a.as_bytes();
    let y = b.as_bytes();
    proof {
        vstd::utf8::encode_utf8_decode_utf8(a@);
        vstd::utf8::encode_utf8_decode_utf8(b@);
    }
    if x.len() != y.len() {
        return false;
    }
    let mut i: usize = 0;
    while i < x.len()
        invariant
            x@.len() == y@.len(),
            x@ == vstd::utf8::encode_utf8(a@),
            y@ == vstd::utf8::encode_utf8(b@),
            0 <= i <= x@.len(),
            forall|j: int| 0 <= j < i ==> x@[j] == y@[j],
        decreases x@.len() - i,
    {
        if x[i] != y[i] {
            return false;
        }
        i = i + 1;
    }
    proof {
        assert(x@ =~= y@);
    }
    true
}

/// The first position at or after `start` that holds the token `x`.
pub open spec fn find_tok(t: Seq<Seq<char>>, start: int, x: Seq<char>) -> Option<int>
    decreases t.len() - start,
{
    if start < 0 || start >= t.len() {
        None
    } else if t[start] == x {
        Some(start)
    } else {
        find_tok(t, start + 1, x)
    }
}

/// The tokens from `start` up to the first `)`, commas left out.
pub open spec fn collect_values(t: Seq<Seq<char>>, start: int) -> Seq<Seq<char>>
    decreases t.len() - start,
{
    if start < 0 || start >= t.len() || t[start] == ")"@ {
        Seq::empty()
    } else if t[start] == ","@ {
        collect_values(t, start + 1)
    } else {
        seq![t[start]] + collect_values(t, start + 1)
    }
}

/// What `INSERT INTO t (cols) VALUES (id, v, ...)` parses to, or the
/// message of the error, for tokens `t` whose upper-case forms are `u`.
pub open spec fn insert_spec(t: Seq<Seq<char>>, u: Seq<Seq<char>>) -> Result<StmtView, Seq<char>> {
    if t.len() < 9 {
        Err("Invalid INSERT syntax"@)
    } else if u[1] != "INTO"@ {
        Err("Expected INTO after INSERT"@)
    } else if find_tok(t, 0, "("@) is None {
        Err("Expected ( after table name"@)
    } else {
        match find_tok(u, 0, "VALUES"@) {
            None => Err("Expected VALUES keyword"@),
            Some(vp) => match find_tok(t, vp, "("@) {
                None => Err("Expected ( after VALUES"@),
                Some(pp) => {
                    let vals = collect_values(t, pp + 1);
                    if vals.len() == 0 {
                        Err("No values provided"@)
                    } else {
                        match decimal_i64(vals[0]) {
                            None => Err("Invalid id: "@ + vals[0]),
                            Some(id) => Ok(
                                StmtView::Insert { table: t[2], id, fields: vals.drop_first() },
                            ),
                        }
                    }
                },
            },
        }
    }
}

/// The inputs on which reading a `SELECT` stays within the tokens `t`
/// (upper-case forms `u`): a token follows `FROM`, and one follows the `=`
/// after `WHERE`.
pub open spec fn select_in_bounds(t: Seq<Seq<char>>, u: Seq<Seq<char>>) -> bool {
    t.len() < 4 || match find_tok(u, 0, "FROM"@) {
        None => true,
        Some(fp) => fp + 1 < t.len() && match find_tok(u, 0, "WHERE"@) {
            None => true,
            Some(wp) => match find_tok(t, wp, "="@) {
                None => true,
                Some(ep) => ep + 1 < t.len(),
            },
        },
    }
}

/// What `SELECT * FROM t [WHERE id = n]` parses to, or the message of the
/// error, for tokens `t` whose upper-case forms are `u`.
pub open spec fn select_spec(t: Seq<Seq<char>>, u: Seq<Seq<char>>) -> Result<StmtView, Seq<char>> {
    if t.len() < 4 {
        Err("Invalid SELECT syntax"@)
    } else {
        match find_tok(u, 0, "FROM"@) {
            None => Err("Expected FROM keyword"@),
            Some(fp) => {
                let table = t[fp + 1];
                match find_tok(u, 0, "WHERE"@) {
                    None => Ok(StmtView::Select { table, where_id: None }),
                    Some(wp) => match find_tok(t, wp, "="@) {
                        None => Err("Expected = after WHERE"@),
                        Some(ep) => match decimal_i64(t[ep + 1]) {
                            None => Err("Invalid id: "@ + t[ep + 1]),
                            Some(id) => Ok(StmtView::Select { table, where_id: Some(id) }),
                        },
                    },
                }
            },
        }
    }
}

/// The inputs that [`parse`] handles, for tokens `t` whose upper-case forms
/// are `u`: all but a `SELECT` that ends right after `FROM` or right after
/// the `=` of its `WHERE`.
pub open spec fn parse_defined(t: Seq<Seq<char>>, u: Seq<Seq<char>>) -> bool {
    t.len() > 0 && u[0] == "SELECT"@ ==> select_in_bounds(t, u)
}

/// What a list of tokens `t`, whose upper-case forms are `u`, parses to, or
/// the message of the error.  Keywords are matched in any case: through
/// their upper-case forms.
pub open spec fn parse_spec(t: Seq<Seq<char>>, u: Seq<Seq<char>>) -> Result<StmtView, Seq<char>> {
    if t.len() == 0 {
        Err("Empty query"@)
    } else if u[0] == "INSERT"@ {
        insert_spec(t, u)
    } else if u[0] == "SELECT"@ {
        select_spec(t, u)
    } else {
        Err("Unknown command: "@ + t[0])
    }
}


/// `r` is what `s` describes: the statement, or an invalid-query error
/// with the message.
pub open spec fn parse_outcome(r: Result<Stmt, DbError>, s: Result<StmtView, Seq<char>>) -> bool {
    match s {
        Ok(v) => r matches Ok(st) && st@ == v,
        Err(msg) => r matches Err(e) && (e matches DbError::InvalidQuery(m) && m@ == msg),
    }
}

/// The first position at or after `start` that holds the token `x`.
fn find_token(t: &[String], start: usize, x: &str) -> (r: Option<usize>)
    ensures
        r matches Some(i) ==> find_tok(texts(t@), start as int, x@) == Some(i as int) && i < t@.len(),
        r is None ==> find_tok(texts(t@), start as int, x@) is None,
{
    let ghost tt = texts(t@);
    let mut i = start;
    while i < t.len()
        invariant
            tt == texts(t@),
            start <= i,
            find_tok(tt, start as int, x@) == find_tok(tt, i as int, x@),
        decreases t@.len() - i,
    {
        if same_text(t[i].as_str(), x) {
            return Some(i);
        }
        i = i + 1;
    }
    None
}

/// The tokens from `start` up to the first `)`, commas left out.
fn values_from(t: &[String], start: usize) -> (v: Vec<String>)
    ensures
        texts(v@) == collect_values(texts(t@), start as int),
{
    let ghost tt = texts(t@);
    let mut vals: Vec<String> = Vec::new();
    let mut i = start;
    let mut stop = false;
    while i < t.len() && !stop
        invariant
            tt == texts(t@),
            start <= i,
            texts(vals@) + collect_values(tt, i as int) == collect_values(tt, start as int),
            stop ==> collect_values(tt, i as int) == Seq::<Seq<char>>::empty(),
        decreases t@.len() - i, if stop { 0int } else { 1int },
    {
        if same_text(t[i].as_str(), ")") {
            stop = true;
        } else if same_text(t[i].as_str(), ",") {
            i = i + 1;
        } else {
            let ghost before = texts(vals@);
            vals.push(t[i].clone());
            proof {
                assert(texts(vals@) =~= before.push(tt[i as int]));
                assert(collect_values(tt, i as int) == seq![tt[i as int]] + collect_values(tt, i + 1));
                assert(texts(vals@) + collect_values(tt, i + 1) =~= before + collect_values(tt, i as int));
            }
            i = i + 1;
        }
    }
    proof {
        assert(texts(vals@) =~= collect_values(tt, start as int));
    }
    vals
}

/// An invalid-query error with the message `m`.
fn invalid(m: &str) -> (e: DbError)
    ensures
        e matches DbError::InvalidQuery(s) && s@ == m@,
{
    DbError::InvalidQuery(m.to_owned())
}

/// Parses `INSERT INTO t (cols) VALUES (id, v, ...)`: see [`insert_spec`].
fn parse_insert(tokens: &[String], upper: &[String]) -> (r: Result<Stmt, DbError>)
    requires
        upper@.len() == tokens@.len(),
    ensures
        parse_outcome(r, insert_spec(texts(tokens@), texts(upper@))),
{
    let ghost tt = texts(tokens@);
    if tokens.len() < 9 {
        return Err(invalid("Invalid INSERT syntax"));
    }
    if !same_text(upper[1].as_str(), "INTO") {
        return Err(invalid("Expected INTO after INSERT"));
    }
    let table = tokens[2].clone();
    if find_token(tokens, 0, "(").is_none() {
        return Err(invalid("Expected ( after table name"));
    }
    let values_pos = match find_token(upper, 0, "VALUES") {
        Some(p) => p,
        None => return Err(invalid("Expected VALUES keyword")),
    };
    let values_paren = match find_token(tokens, values_pos, "(") {
        Some(p) => p,
        None => return Err(invalid("Expected ( after VALUES")),
    };
    let mut values = values_from(tokens, values_paren + 1);
    if values.len() == 0 {
        return Err(invalid("No values provided"));
    }
    let id = match parse_i64(values[0].as_str()) {
        Some(id) => id,
        None => {
            let msg = "Invalid id: ".to_owned().concat(values[0].as_str());
            return Err(DbError::InvalidQuery(msg));
        },
    };
    let ghost all = texts(values@);
    values.remove(0);
    proof {
        assert(texts(values@) =~= all.drop_first());
    }
    Ok(Stmt::Insert { table, id, fields: values })
}

/// Parses `SELECT * FROM t [WHERE id = n]`: see [`select_spec`].
fn parse_select(tokens: &[String], upper: &[String]) -> (r: Result<Stmt, DbError>)
    requires
        upper@.len() == tokens@.len(),
        select_in_bounds(texts(tokens@), texts(upper@)),
    ensures
        parse_outcome(r, select_spec(texts(tokens@), texts(upper@))),
{
    let ghost tt = texts(tokens@);
    if tokens.len() < 4 {
        return Err(invalid("Invalid SELECT syntax"));
    }
    let from_pos = match find_token(upper, 0, "FROM") {
        Some(p) => p,
        None => return Err(invalid("Expected FROM keyword")),
    };
    let table = tokens[from_pos + 1].clone();
    let where_id = match find_token(upper, 0, "WHERE") {
        Some(where_pos) => {
            let eq_pos = match find_token(tokens, where_pos, "=") {
                Some(p) => p,
                None => return Err(invalid("Expected = after WHERE")),
            };
            let id_str = &tokens[eq_pos + 1];
            match parse_i64(id_str.as_str()) {
                Some(id) => Some(id),
                None => {
                    let msg = "Invalid id: ".to_owned().concat(id_str.as_str());
                    return Err(DbError::InvalidQuery(msg));
                },
            }
        },
        None => None,
    };
    Ok(Stmt::Select { table, where_id })
}

/// The upper-case forms of `tokens`, one for each, as `str::to_uppercase`
/// gives them: see [`uppers`] and [`known_uppers`].
pub fn upper_tokens(tokens: &[String]) -> (u: Vec<String>)
    ensures
        texts(u@) == uppers(texts(tokens@)),
        texts(u@) == known_uppers(texts(tokens@)),
{
    let mut u: Vec<String> = Vec::new();
    let mut i: usize = 0;
    while i < tokens.len()
        invariant
            0 <= i <= tokens@.len(),
            texts(u@) == uppers(texts(tokens@)).take(i as int),
            texts(u@) == known_uppers(texts(tokens@)).take(i as int),
        decreases tokens@.len() - i,
    {
        let ghost before = texts(u@);
        let up = to_upper(tokens[i].as_str());
        u.push(up);
        proof {
            assert(texts(tokens@)[i as int] == tokens@[i as int]@);
            assert(uppers(texts(tokens@))[i as int] == upper_text(tokens@[i as int]@));
            assert(texts(u@) =~= before.push(up@));
            assert(texts(u@) =~= uppers(texts(tokens@)).take(i + 1));
            assert(texts(u@) =~= known_uppers(texts(tokens@)).take(i + 1));
        }
        i = i + 1;
    }
    proof {
        assert(uppers(texts(tokens@)).take(tokens@.len() as int) =~= uppers(texts(tokens@)));
        assert(known_uppers(texts(tokens@)).take(tokens@.len() as int) =~= known_uppers(texts(tokens@)));
    }
    u
}

/// Parses tokens into a statement, given the upper-case form of each token
/// in `upper`: see [`parse_spec`].
pub fn parse_with_upper(tokens: &[String], upper: &[String]) -> (r: Result<Stmt, DbError>)
    requires
        upper@.len() == tokens@.len(),
        parse_defined(texts(tokens@), texts(upper@)),
    ensures
        parse_outcome(r, parse_spec(texts(tokens@), texts(upper@))),
{
    if tokens.len() == 0 {
        return Err(invalid("Empty query"));
    }
    if same_text(upper[0].as_str(), "INSERT") {
        parse_insert(tokens, upper)
    } else if same_text(upper[0].as_str(), "SELECT") {
        parse_select(tokens, upper)
    } else {
        let msg = "Unknown command: ".to_owned().concat(tokens[0].as_str());
        Err(DbError::InvalidQuery(msg))
    }
}

/// Parses a list of tokens into a statement, matching keywords in any case:
/// see [`parse_spec`].
pub fn parse(tokens: &[String]) -> (r: Result<Stmt, DbError>)
    requires
        parse_defined(texts(tokens@), known_uppers(texts(tokens@))),
    ensures
        parse_outcome(r, parse_spec(texts(tokens@), known_uppers(texts(tokens@)))),
{
    let upper = upper_tokens(tokens);
    parse_with_upper(tokens, upper.as_slice())
}

/// Whether [`parse`] is defined on `tokens`, given the upper-case form of
/// each token in `upper`: see [`parse_defined`].
pub fn in_bounds_with_upper(tokens: &[String], upper: &[String]) -> (b: bool)
    requires
        upper@.len() == tokens@.len(),
    ensures
        b == parse_defined(texts(tokens@), texts(upper@)),
{
    if tokens.len() < 4 || !same_text(upper[0].as_str(), "SELECT") {
        return true;
    }
    let from_pos = match find_token(upper, 0, "FROM") {
        Some(p) => p,
        None => return true,
    };
    if from_pos + 1 >= tokens.len() {
        return false;
    }
    match find_token(upper, 0, "WHERE") {
        None => true,
        Some(where_pos) => match find_token(tokens, where_pos, "=") {
            None => true,
            Some(eq_pos) => eq_pos + 1 < tokens.len(),
        },
    }
}

/// Whether [`parse`] is defined on `tokens`: see [`parse_defined`].
pub fn parse_in_bounds(tokens: &[String]) -> (b: bool)
    ensures
        b == parse_defined(texts(tokens@), known_uppers(texts(tokens@))),
{
    let upper = upper_tokens(tokens);
    in_bounds_with_upper(tokens, upper.as_slice())
}

/// Parses a list of tokens when [`parse`] is defined on them, and gives
/// `None` for the `SELECT` statements that end too early for it.
pub fn parse_checked(tokens: &[String]) -> (r: Option<Result<Stmt, DbError>>)
    ensures
        r is None <==> !parse_defined(texts(tokens@), known_uppers(texts(tokens@))),
        r matches Some(p) ==> parse_outcome(p, parse_spec(texts(tokens@), known_uppers(texts(tokens@)))),
{
    let upper = upper_tokens(tokens);
    if in_bounds_with_upper(tokens, upper.as_slice()) {
        Some(parse_with_upper(tokens, upper.as_slice()))
    } else {
        None
    }
}

proof fn lemma_find_tok_found(t: Seq<Seq<char>>, start: int, x: Seq<char>)
    ensures
        find_tok(t, start, x) matches Some(i) ==> start <= i < t.len() && t[i] == x,
    decreases t.len() - start,
{
    if 0 <= start < t.len() && t[start] != x {
        lemma_find_tok_found(t, start + 1, x);
    }
}

/// Token lists that differ only where neither holds `x` find `x` at the
/// same place.
proof fn lemma_find_tok_same(t1: Seq<Seq<char>>, t2: Seq<Seq<char>>, start: int, x: Seq<char>)
    requires
        t1.len() == t2.len(),
        forall|j: int| start <= j < t1.len() && t1[j] != t2[j] ==> t1[j] != x && t2[j] != x,
    ensures
        find_tok(t1, start, x) == find_tok(t2, start, x),
    decreases t1.len() - start,
{
    if 0 <= start < t1.len() {
        lemma_find_tok_same(t1, t2, start + 1, x);
    }
}

/// Token lists that agree from `start` on collect the same values there.
proof fn lemma_collect_values_same(t1: Seq<Seq<char>>, t2: Seq<Seq<char>>, start: int)
    requires
        t1.len() == t2.len(),
        forall|j: int| start <= j < t1.len() ==> t1[j] == t2[j],
    ensures
        collect_values(t1, start) == collect_values(t2, start),
    decreases t1.len() - start,
{
    if 0 <= start < t1.len() {
        lemma_collect_values_same(t1, t2, start + 1);
    }
}

/// A token made of one ASCII character that is not a letter is its own
/// upper-case form.
proof fn lemma_sign_upper(t: Seq<Seq<char>>, i: int, c: char)
    requires
        0 <= i < t.len(),
        t[i] == seq![c],
        (c as int) < 128,
        !('a' <= c <= 'z'),
    ensures
        known_uppers(t)[i] == seq![c],
{
    assert(is_ascii_text(t[i]));
    assert(ascii_upper_text(t[i]) =~= seq![c]);
}

proof fn lemma_keyword_texts()
    ensures
        "("@ == seq!['('],
        "="@ == seq!['='],
        "INSERT"@.len() == 6,
        "INTO"@.len() == 4,
        "VALUES"@.len() == 6,
        "SELECT"@.len() == 6,
        "FROM"@.len() == 4,
        "WHERE"@.len() == 5,
        "INSERT"@ != "SELECT"@,
{
    reveal_strlit("(");
    reveal_strlit("=");
    reveal_strlit("INSERT");
    reveal_strlit("INTO");
    reveal_strlit("VALUES");
    reveal_strlit("SELECT");
    reveal_strlit("FROM");
    reveal_strlit("WHERE");
    assert("("@ =~= seq!['(']);
    assert("="@ =~= seq!['=']);
    assert("INSERT"@[0] != "SELECT"@[0]);
}

/// In two token lists with the same upper-case forms, a token that is
/// not the same in both is neither `(` nor `=`, when its upper-case form
/// is longer than one character.
proof fn lemma_differing_not_sign(t1: Seq<Seq<char>>, t2: Seq<Seq<char>>, j: int)
    requires
        t1.len() == t2.len(),
        known_uppers(t1) == known_uppers(t2),
        0 <= j < t1.len(),
        known_uppers(t1)[j].len() > 1,
    ensures
        t1[j] != "("@ && t2[j] != "("@,
        t1[j] != "="@ && t2[j] != "="@,
{
    lemma_keyword_texts();
    if t1[j] == "("@ {
        lemma_sign_upper(t1, j, '(');
    }
    if t2[j] == "("@ {
        lemma_sign_upper(t2, j, '(');
    }
    if t1[j] == "="@ {
        lemma_sign_upper(t1, j, '=');
    }
    if t2[j] == "="@ {
        lemma_sign_upper(t2, j, '=');
    }
}

/// `INSERT` keywords are matched in any case: two token lists with the
/// same upper-case forms that differ only in keyword tokens (`INSERT`,
/// `INTO`, `VALUES`, in any case) before the value list, the table name
/// aside, parse to the same result; so `insert into t (..) values (..)`
/// parses as `INSERT INTO t (..) VALUES (..)` does.
pub proof fn law_insert_keywords_any_case(t1: Seq<Seq<char>>, t2: Seq<Seq<char>>)
    requires
        t1.len() == t2.len(),
        known_uppers(t1) == known_uppers(t2),
        t1.len() > 0,
        known_uppers(t1)[0] == "INSERT"@,
        forall|i: int|
            0 <= i < t1.len() && t1[i] != t2[i] ==> {
                &&& i != 2
                &&& (known_uppers(t1)[i] == "INSERT"@ || known_uppers(t1)[i] == "INTO"@
                    || known_uppers(t1)[i] == "VALUES"@)
                &&& (find_tok(known_uppers(t1), 0, "VALUES"@) matches Some(vp) ==> i <= vp)
            },
    ensures
        parse_spec(t1, known_uppers(t1)) == parse_spec(t2, known_uppers(t2)),
{
    let u = known_uppers(t1);
    lemma_keyword_texts();
    assert forall|j: int| 0 <= j < t1.len() && t1[j] != t2[j] implies t1[j] != "("@ && t2[j] != "("@ by {
        lemma_differing_not_sign(t1, t2, j);
    }
    lemma_find_tok_same(t1, t2, 0, "("@);
    lemma_find_tok_found(u, 0, "VALUES"@);
    if let Some(vp) = find_tok(u, 0, "VALUES"@) {
        lemma_find_tok_same(t1, t2, vp, "("@);
        lemma_find_tok_found(t1, vp, "("@);
        if let Some(pp) = find_tok(t1, vp, "("@) {
            lemma_collect_values_same(t1, t2, pp + 1);
        }
    }
}

/// `SELECT` keywords are matched in any case: two token lists with the
/// same upper-case forms, on which parsing is defined, that differ only in
/// keyword tokens (`SELECT`, `FROM`, `WHERE`, in any case) that do not
/// stand right after the first `FROM` or right after an `=`, parse to the
/// same result; so `select * from t where id = 1` parses as
/// `SELECT * FROM t WHERE id = 1` does.
pub proof fn law_select_keywords_any_case(t1: Seq<Seq<char>>, t2: Seq<Seq<char>>)
    requires
        t1.len() == t2.len(),
        known_uppers(t1) == known_uppers(t2),
        t1.len() > 0,
        known_uppers(t1)[0] == "SELECT"@,
        parse_defined(t1, known_uppers(t1)),
        forall|i: int|
            0 <= i < t1.len() && t1[i] != t2[i] ==> {
                &&& (known_uppers(t1)[i] == "SELECT"@ || known_uppers(t1)[i] == "FROM"@
                    || known_uppers(t1)[i] == "WHERE"@)
                &&& i > 0 ==> find_tok(known_uppers(t1), 0, "FROM"@) != Some(i - 1) && t1[i - 1] != "="@
            },
    ensures
        parse_spec(t1, known_uppers(t1)) == parse_spec(t2, known_uppers(t2)),
{
    let u = known_uppers(t1);
    lemma_keyword_texts();
    assert forall|j: int| 0 <= j < t1.len() && t1[j] != t2[j] implies t1[j] != "="@ && t2[j] != "="@ by {
        lemma_differing_not_sign(t1, t2, j);
    }
    if t1.len() >= 4 {
        if let Some(fp) = find_tok(u, 0, "FROM"@) {
            lemma_find_tok_found(u, 0, "FROM"@);
            assert(t1[fp + 1] == t2[fp + 1]);
            lemma_find_tok_found(u, 0, "WHERE"@);
            if let Some(wp) = find_tok(u, 0, "WHERE"@) {
                lemma_find_tok_same(t1, t2, wp, "="@);
                lemma_find_tok_found(t1, wp, "="@);
                if let Some(ep) = find_tok(t1, wp, "="@) {
                    assert(t1[ep + 1] == t2[ep + 1]);
                }
            }
        }
    }
}

/// The table of a parsed `SELECT` is the token right after the first
/// `FROM`, whatever the column list; its `WHERE` id, when there is one, is
/// the number right after the first `=` that follows the first `WHERE`, and
/// a `SELECT` without `WHERE` has none.
pub proof fn law_select_reads(t: Seq<Seq<char>>, u: Seq<Seq<char>>)
    requires
        u.len() == t.len(),
        parse_spec(t, u) is Ok,
        parse_spec(t, u)->Ok_0 is Select,
    ensures
        u[0] == "SELECT"@,
        find_tok(u, 0, "FROM"@) matches Some(fp) && parse_spec(t, u)->Ok_0->Select_table == t[fp + 1],
        parse_spec(t, u)->Ok_0->Select_where_id matches Some(n) ==> find_tok(u, 0, "WHERE"@) matches Some(wp)
            && find_tok(t, wp, "="@) matches Some(ep) && decimal_i64(t[ep + 1]) == Some(n),
        parse_spec(t, u)->Ok_0->Select_where_id is None ==> find_tok(u, 0, "WHERE"@) is None,
{
}

/// A `SELECT` whose first `FROM` is followed by a token and which has no
/// `WHERE` is always read, into a query of that table with no condition.
pub proof fn law_select_without_where(t: Seq<Seq<char>>, u: Seq<Seq<char>>, fp: int)
    requires
        u.len() == t.len(),
        t.len() >= 4,
        u[0] == "SELECT"@,
        find_tok(u, 0, "FROM"@) == Some(fp),
        fp + 1 < t.len(),
        find_tok(u, 0, "WHERE"@) is None,
    ensures
        parse_defined(t, u),
        parse_spec(t, u) == Ok::<StmtView, Seq<char>>(StmtView::Select { table: t[fp + 1], where_id: None }),
{
    lemma_keyword_texts();
}

/// A `SELECT` whose first `FROM` is followed by a token and whose `WHERE`
/// is followed, after an `=`, by a number is always read, into a query of
/// that table for that id.
pub proof fn law_select_with_where(t: Seq<Seq<char>>, u: Seq<Seq<char>>, fp: int, wp: int, ep: int, n: i64)
    requires
        u.len() == t.len(),
        t.len() >= 4,
        u[0] == "SELECT"@,
        find_tok(u, 0, "FROM"@) == Some(fp),
        fp + 1 < t.len(),
        find_tok(u, 0, "WHERE"@) == Some(wp),
        find_tok(t, wp, "="@) == Some(ep),
        ep + 1 < t.len(),
        decimal_i64(t[ep + 1]) == Some(n),
    ensures
        parse_defined(t, u),
        parse_spec(t, u) == Ok::<StmtView, Seq<char>>(StmtView::Select { table: t[fp + 1], where_id: Some(n) }),
{
    lemma_keyword_texts();
}

/// What a parsed `INSERT` holds: it has at least nine tokens, its second
/// token is `INTO` in any case, and a `(` follows the table name; its table
/// is the third token, its id is the first value in the parentheses after
/// the first `VALUES` (in any case), and its fields are the other values
/// there, in order, commas left out.
pub proof fn law_insert_reads(t: Seq<Seq<char>>, u: Seq<Seq<char>>)
    requires
        u.len() == t.len(),
        parse_spec(t, u) is Ok,
        parse_spec(t, u)->Ok_0 is Insert,
    ensures
        u[0] == "INSERT"@,
        u[1] == "INTO"@,
        t.len() >= 9,
        find_tok(t, 0, "("@) is Some,
        parse_spec(t, u)->Ok_0->Insert_table == t[2],
        find_tok(u, 0, "VALUES"@) matches Some(vp) && find_tok(t, vp, "("@) matches Some(pp) && {
            let vals = collect_values(t, pp + 1);
            &&& vals.len() > 0
            &&& decimal_i64(vals[0]) == Some(parse_spec(t, u)->Ok_0->Insert_id)
            &&& parse_spec(t, u)->Ok_0->Insert_fields == vals.drop_first()
        },
{
}

/// An `INSERT` of at least nine tokens, with `INTO` second and a `(`
/// somewhere, whose first `VALUES` is followed by a `(` and a number as the
/// first value, is always read, into a row of that id for the third token's
/// table.
pub proof fn law_insert_parses(t: Seq<Seq<char>>, u: Seq<Seq<char>>, vp: int, pp: int, id: i64)
    requires
        u.len() == t.len(),
        t.len() >= 9,
        u[0] == "INSERT"@,
        u[1] == "INTO"@,
        find_tok(u, 0, "VALUES"@) == Some(vp),
        find_tok(t, vp, "("@) == Some(pp),
        collect_values(t, pp + 1).len() > 0,
        decimal_i64(collect_values(t, pp + 1)[0]) == Some(id),
    ensures
        parse_defined(t, u),
        parse_spec(t, u) == Ok::<StmtView, Seq<char>>(
            StmtView::Insert { table: t[2], id, fields: collect_values(t, pp + 1).drop_first() },
        ),
{
    lemma_keyword_texts();
    lemma_find_tok_found(t, vp, "("@);
    lemma_find_tok_found(u, 0, "VALUES"@);
    lemma_find_tok_at_most(t, 0, pp, "("@);
}

/// A token found at `i`, at or after `start`, is found from `start`
/// at `i` or before.
proof fn lemma_find_tok_at_most(t: Seq<Seq<char>>, start: int, i: int, x: Seq<char>)
    requires
        0 <= start <= i < t.len(),
        t[i] == x,
    ensures
        find_tok(t, start, x) matches Some(j) && j <= i,
    decreases i - start,
{
    if t[start] != x {
        lemma_find_tok_at_most(t, start + 1, i, x);
    }
}

} // verus!
