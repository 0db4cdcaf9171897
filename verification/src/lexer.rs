use vstd::prelude::*;
use vstd::string::*;
use crate::error::Error;

verus! {

// ---------------------------------------------------------------------------
// Interned text
// ---------------------------------------------------------------------------

/// An owned piece of source text: an identifier, or the contents of a string
/// literal. Its mathematical value is its character sequence.
#[derive(Debug, Hash, PartialEq, Eq)]
pub struct Str(String);

impl View for Str {
    type V = Seq<char>;

    closed spec fn view(&self) -> Seq<char> {
        self.0@
    }
}

impl Clone for Str {
    fn clone(&self) -> (r: Str)
        ensures
            r@ == self@,
    {
        Str(self.0.clone())
    }
}

impl Str {
    pub fn new(s: &str) -> (r: Str)
        ensures
            r@ == s@,
    {
        Str(s.to_owned())
    }

    pub fn as_str(&self) -> (r: &str)
        ensures
            r@ == self@,
    {
        self.0.as_str()
    }

    /// Decides whether two pieces of text hold the same characters.
    pub fn eq_str(&self, other: &Str) -> (r: bool)
        ensures
            r == (self@ == other@),
    {
        self.0 == other.0
    }
}

/// Relies on `String::push`: appends exactly the given character.
#[verifier::external_body]
pub(crate) fn string_push(s: &mut String, c: char)
    ensures
        final(s)@ == old(s)@.push(c),
{
    s.push(c);
}

/// Decides whether two string slices hold the same characters.
pub fn str_eq(a: &str, b: &str) -> (r: bool)
    ensures
        r == (a@ == b@),
{
    let an: usize = a.unicode_len();
    let bn: usize = b.unicode_len();
    if an != bn {
        return false;
    }
    let mut i: usize = 0;
    while i < an
        invariant
            an == a@.len(),
            bn == b@.len(),
            an == bn,
            i <= an,
            forall|j: int| 0 <= j < i ==> a@[j] == b@[j],
        decreases an - i,
    {
        if a.get_char(i) != b.get_char(i) {
            return false;
        }
        i += 1;
    }
    proof {
        assert(a@ =~= b@);
    }
    true
}

/// Copies the characters of a string slice into a vector.
pub fn chars_of(s: &str) -> (r: Vec<char>)
    ensures
        r@ == s@,
{
    let n: usize = s.unicode_len();
    let mut v: Vec<char> = Vec::new();
    let mut i: usize = 0;
    while i < n
        invariant
            n == s@.len(),
            i <= n,
            v@.len() == i,
            forall|j: int| 0 <= j < i ==> v@[j] == s@[j],
        decreases n - i,
    {
        v.push(s.get_char(i));
        i += 1;
    }
    proof {
        assert(v@ =~= s@);
    }
    v
}

// ---------------------------------------------------------------------------
// Tokens
// ---------------------------------------------------------------------------

/// One token of the surface syntax.
#[derive(Debug, PartialEq, Eq)]
pub enum Token {
    /// An opening parenthesis.
    Bra,
    /// A closing parenthesis.
    Ket,
    /// One of the keywords `+`, `fn`, `let`, `macro`, `print`.
    Keyword(&'static str),
    /// A string literal (the quotes are not part of the payload).
    Str(Str),
    /// An unsigned decimal number literal.
    Number(u32),
    /// A bare name.
    Name(Str),
}

/// The mathematical value of a token.
#[verifier::ext_equal]
pub enum TokenV {
    Bra,
    Ket,
    Keyword(Seq<char>),
    StrLit(Seq<char>),
    Number(u32),
    Name(Seq<char>),
}

impl View for Token {
    type V = TokenV;

    open spec fn view(&self) -> TokenV {
        match self {
            Token::Bra => TokenV::Bra,
            Token::Ket => TokenV::Ket,
            Token::Keyword(s) => TokenV::Keyword(s@),
            Token::Str(s) => TokenV::StrLit(s@),
            Token::Number(n) => TokenV::Number(*n),
            Token::Name(s) => TokenV::Name(s@),
        }
    }
}

impl Clone for Token {
    fn clone(&self) -> (r: Token)
        ensures
            r@ == self@,
    {
        match self {
            Token::Bra => Token::Bra,
            Token::Ket => Token::Ket,
            Token::Keyword(s) => Token::Keyword(s),
            Token::Str(s) => Token::Str(s.clone()),
            Token::Number(n) => Token::Number(*n),
            Token::Name(s) => Token::Name(s.clone()),
        }
    }
}

/// The character sequences under a sequence of owned text values.
pub open spec fn strs_view(s: Seq<Str>) -> Seq<Seq<char>> {
    s.map_values(|x: Str| x@)
}

/// The sequence of token values under a sequence of tokens.
pub open spec fn toks_view(ts: Seq<Token>) -> Seq<TokenV> {
    ts.map_values(|t: Token| t@)
}

// ---------------------------------------------------------------------------
// Character classes
// ---------------------------------------------------------------------------

/// The Unicode white-space characters, the class the tokenizer skips.
pub open spec fn is_ws_char(c: char) -> bool {
    let u = c as u32;
    (0x09 <= u && u <= 0x0D) || u == 0x20 || u == 0x85 || u == 0xA0 || u == 0x1680 || (0x2000
        <= u && u <= 0x200A) || u == 0x2028 || u == 0x2029 || u == 0x202F || u == 0x205F || u
        == 0x3000
}

pub fn is_whitespace_char(c: char) -> (r: bool)
    ensures
        r == is_ws_char(c),
{
    let u: u32 = c as u32;
    (0x09 <= u && u <= 0x0D) || u == 0x20 || u == 0x85 || u == 0xA0 || u == 0x1680 || (0x2000
        <= u && u <= 0x200A) || u == 0x2028 || u == 0x2029 || u == 0x202F || u == 0x205F || u
        == 0x3000
}

/// The decimal digits.
pub open spec fn is_digit_char(c: char) -> bool {
    0x30 <= c as u32 && c as u32 <= 0x39
}

pub fn is_decimal_char(c: char) -> (r: bool)
    ensures
        r == is_digit_char(c),
{
    let u: u32 = c as u32;
    0x30 <= u && u <= 0x39
}

/// The numeric value of a decimal digit.
pub open spec fn digit_val(c: char) -> nat {
    ((c as u32) - 0x30) as nat
}

/// The characters that end a name: white space, brackets, and the quote.
pub open spec fn is_name_end(c: char) -> bool {
    is_ws_char(c) || c == '(' || c == ')' || c == '"'
}

pub fn is_name_end_char(c: char) -> (r: bool)
    ensures
        r == is_name_end(c),
{
    is_whitespace_char(c) || c == '(' || c == ')' || c == '"'
}

// ---------------------------------------------------------------------------
// What the tokenizer means, as functions on character sequences
// ---------------------------------------------------------------------------

/// Splits the characters after an opening quote into the literal's body and
/// the rest of the input (the closing quote, if any, belongs to neither).
pub open spec fn str_body(cs: Seq<char>) -> (Seq<char>, Seq<char>)
    decreases cs.len(),
{
    if cs.len() == 0 {
        (Seq::<char>::empty(), Seq::<char>::empty())
    } else if cs[0] == '"' {
        (Seq::<char>::empty(), cs.skip(1))
    } else {
        let (b, r) = str_body(cs.skip(1));
        (seq![cs[0]] + b, r)
    }
}

pub proof fn lemma_str_body_len(cs: Seq<char>)
    ensures
        str_body(cs).1.len() <= cs.len(),
    decreases cs.len(),
{
    if cs.len() == 0 {
    } else if cs[0] == '"' {
    } else {
        lemma_str_body_len(cs.skip(1));
    }
}

/// Splits a character sequence into its maximal decimal-digit prefix and the
/// rest.
pub open spec fn take_digits(cs: Seq<char>) -> (Seq<char>, Seq<char>)
    decreases cs.len(),
{
    if cs.len() == 0 || !is_digit_char(cs[0]) {
        (Seq::<char>::empty(), cs)
    } else {
        let (d, r) = take_digits(cs.skip(1));
        (seq![cs[0]] + d, r)
    }
}

pub proof fn lemma_take_digits_len(cs: Seq<char>)
    ensures
        take_digits(cs).1.len() <= cs.len(),
        cs.len() > 0 && is_digit_char(cs[0]) ==> take_digits(cs).1.len() < cs.len(),
    decreases cs.len(),
{
    if cs.len() == 0 || !is_digit_char(cs[0]) {
    } else {
        lemma_take_digits_len(cs.skip(1));
    }
}

/// Splits a character sequence into its maximal name prefix and the rest.
pub open spec fn take_name(cs: Seq<char>) -> (Seq<char>, Seq<char>)
    decreases cs.len(),
{
    if cs.len() == 0 || is_name_end(cs[0]) {
        (Seq::<char>::empty(), cs)
    } else {
        let (d, r) = take_name(cs.skip(1));
        (seq![cs[0]] + d, r)
    }
}

pub proof fn lemma_take_name_len(cs: Seq<char>)
    ensures
        take_name(cs).1.len() <= cs.len(),
        cs.len() > 0 && !is_name_end(cs[0]) ==> take_name(cs).1.len() < cs.len(),
    decreases cs.len(),
{
    if cs.len() == 0 || is_name_end(cs[0]) {
    } else {
        lemma_take_name_len(cs.skip(1));
    }
}

/// The value of a decimal numeral, most significant digit first.
pub open spec fn digits_val(ds: Seq<char>) -> nat
    decreases ds.len(),
{
    if ds.len() == 0 {
        0
    } else {
        digits_val(ds.drop_last()) * 10 + digit_val(ds.last())
    }
}

/// Extending a numeral to the right never lowers its value.
pub proof fn lemma_digits_val_append(a: Seq<char>, b: Seq<char>)
    ensures
        digits_val(a + b) >= digits_val(a),
    decreases b.len(),
{
    if b.len() == 0 {
        assert(a + b =~= a);
    } else {
        assert((a + b).drop_last() =~= a + b.drop_last());
        assert((a + b).last() == b.last());
        lemma_digits_val_append(a, b.drop_last());
    }
}

/// The keywords of the surface syntax.
pub open spec fn is_keyword_str(s: Seq<char>) -> bool {
    s == "+"@ || s == "fn"@ || s == "let"@ || s == "macro"@ || s == "print"@
}

/// The token a bare word stands for: a keyword where it is one, a name
/// otherwise.
pub open spec fn word_token(s: Seq<char>) -> TokenV {
    if is_keyword_str(s) {
        TokenV::Keyword(s)
    } else {
        TokenV::Name(s)
    }
}

pub open spec fn cons_tok(t: TokenV, r: Option<Seq<TokenV>>) -> Option<Seq<TokenV>> {
    match r {
        Some(ts) => Some(seq![t] + ts),
        None => None,
    }
}

pub open spec fn prepend_toks(pre: Seq<TokenV>, r: Option<Seq<TokenV>>) -> Option<Seq<TokenV>> {
    match r {
        Some(ts) => Some(pre + ts),
        None => None,
    }
}

/// The token sequence of a character sequence, or `None` where a numeral
/// does not fit in `u32` (the one condition tokenization reports).
pub open spec fn lex_spec(cs: Seq<char>) -> Option<Seq<TokenV>>
    decreases cs.len(),
    via lex_spec_decreases
{
    if cs.len() == 0 {
        Some(Seq::<TokenV>::empty())
    } else if is_ws_char(cs[0]) {
        lex_spec(cs.skip(1))
    } else if cs[0] == '(' {
        cons_tok(TokenV::Bra, lex_spec(cs.skip(1)))
    } else if cs[0] == ')' {
        cons_tok(TokenV::Ket, lex_spec(cs.skip(1)))
    } else if cs[0] == '"' {
        let (body, rest) = str_body(cs.skip(1));
        cons_tok(TokenV::StrLit(body), lex_spec(rest))
    } else if is_digit_char(cs[0]) {
        let (ds, rest) = take_digits(cs);
        if digits_val(ds) > u32::MAX as nat {
            None
        } else {
            cons_tok(TokenV::Number(digits_val(ds) as u32), lex_spec(rest))
        }
    } else {
        let (nm, rest) = take_name(cs);
        cons_tok(word_token(nm), lex_spec(rest))
    }
}

#[via_fn]
proof fn lex_spec_decreases(cs: Seq<char>) {
    if cs.len() > 0 && !is_ws_char(cs[0]) && cs[0] != '(' && cs[0] != ')' {
        if cs[0] == '"' {
            lemma_str_body_len(cs.skip(1));
        } else if is_digit_char(cs[0]) {
            lemma_take_digits_len(cs);
        } else {
            lemma_take_name_len(cs);
        }
    }
}

// ---------------------------------------------------------------------------
// The tokenizer
// ---------------------------------------------------------------------------

struct Lexer {
    chars: Vec<char>,
    pos: usize,
}

impl Lexer {
    spec fn wf(&self) -> bool {
        self.pos <= self.chars@.len()
    }

    /// The input not yet consumed.
    spec fn rem(&self) -> Seq<char> {
        self.chars@.skip(self.pos as int)
    }

    fn new(input: &str) -> (r: Lexer)
        ensures
            r.wf(),
            r.rem() == input@,
    {
        let l = Lexer { chars: chars_of(input), pos: 0 };
        proof {
            assert(l.chars@.skip(0) =~= l.chars@);
        }
        l
    }

    fn done(&self) -> (r: bool)
        requires
            self.wf(),
        ensures
            r == (self.rem().len() == 0),
    {
        self.pos == self.chars.len()
    }

    /// Consumes one character.
    fn bump(&mut self)
        requires
            old(self).wf(),
            old(self).rem().len() > 0,
        ensures
            final(self).wf(),
            final(self).chars == old(self).chars,
            final(self).rem() == old(self).rem().skip(1),
            final(self).rem().len() == old(self).rem().len() - 1,
    {
        let n = self.chars.len();
        proof {
            assert(self.rem().len() == n - self.pos);
        }
        self.pos = self.pos + 1;
        proof {
            assert(old(self).rem().skip(1) =~= self.chars@.skip(self.pos as int));
        }
    }

    fn eat_whitespace(&mut self)
        requires
            old(self).wf(),
        ensures
            final(self).wf(),
            final(self).chars == old(self).chars,
            lex_spec(final(self).rem()) == lex_spec(old(self).rem()),
            final(self).rem().len() > 0 ==> !is_ws_char(final(self).rem()[0]),
            final(self).rem().len() <= old(self).rem().len(),
    {
        while self.pos < self.chars.len() && is_whitespace_char(self.chars[self.pos])
            invariant
                self.wf(),
                self.chars == old(self).chars,
                lex_spec(self.rem()) == lex_spec(old(self).rem()),
                self.rem().len() <= old(self).rem().len(),
            decreases self.chars@.len() - self.pos,
        {
            proof {
                let r0 = self.chars@.skip(self.pos as int);
                assert(r0[0] == self.chars@[self.pos as int]);
                assert(r0.skip(1) =~= self.chars@.skip(self.pos as int + 1));
                assert(lex_spec(r0) == lex_spec(r0.skip(1)));
            }
            self.pos = self.pos + 1;
        }
    }

    /// Consumes a string literal. The position stands on the opening quote.
    fn lex_string(&mut self) -> (t: Token)
        requires
            old(self).wf(),
            old(self).rem().len() > 0,
            old(self).rem()[0] == '"',
        ensures
            final(self).wf(),
            t@ == TokenV::StrLit(str_body(old(self).rem().skip(1)).0),
            final(self).rem() == str_body(old(self).rem().skip(1)).1,
            final(self).rem().len() < old(self).rem().len(),
    {
        proof {
            lemma_str_body_len(old(self).rem().skip(1));
        }
        let ghost orig = old(self).rem().skip(1);
        self.bump();
        let mut content = String::new();
        loop
            invariant_except_break
                str_body(orig).0 == content@ + str_body(self.rem()).0,
                str_body(orig).1 == str_body(self.rem()).1,
            invariant
                self.wf(),
                self.chars == old(self).chars,
                self.rem().len() <= orig.len(),
            ensures
                self.wf(),
                self.chars == old(self).chars,
                str_body(orig).0 == content@,
                str_body(orig).1 == self.rem(),
                self.rem().len() <= orig.len(),
            decreases self.chars@.len() - self.pos,
        {
            if self.pos >= self.chars.len() {
                proof {
                    assert(self.rem().len() == 0);
                    assert(str_body(self.rem()).0 =~= Seq::<char>::empty());
                    assert(content@ + Seq::<char>::empty() =~= content@);
                }
                break;
            }
            let c = self.chars[self.pos];
            proof {
                assert(self.rem()[0] == c);
                assert(self.rem().skip(1) =~= self.chars@.skip(self.pos as int + 1));
            }
            let ghost before = self.rem();
            self.pos = self.pos + 1;
            if c == '"' {
                proof {
                    assert(str_body(before).0 =~= Seq::<char>::empty());
                    assert(content@ + Seq::<char>::empty() =~= content@);
                    assert(str_body(before).1 == self.rem());
                }
                break;
            }
            string_push(&mut content, c);
            proof {
                assert(str_body(before).0 =~= seq![c] + str_body(self.rem()).0);
                assert((content@.drop_last()) + (seq![c] + str_body(self.rem()).0) =~= content@
                    + str_body(self.rem()).0);
            }
        }
        proof {
            lemma_str_body_len(orig);
        }
        Token::Str(Str(content))
    }

    /// Consumes a decimal numeral. The position stands on a digit.
    fn lex_number(&mut self) -> (r: Result<Token, Error>)
        requires
            old(self).wf(),
            old(self).rem().len() > 0,
            is_digit_char(old(self).rem()[0]),
        ensures
            final(self).wf(),
            match r {
                Ok(t) => {
                    &&& digits_val(take_digits(old(self).rem()).0) <= u32::MAX as nat
                    &&& t@ == TokenV::Number(digits_val(take_digits(old(self).rem()).0) as u32)
                    &&& final(self).rem() == take_digits(old(self).rem()).1
                    &&& final(self).rem().len() < old(self).rem().len()
                },
                Err(e) => {
                    &&& e == Error::NumberOverflow
                    &&& digits_val(take_digits(old(self).rem()).0) > u32::MAX as nat
                },
            },
    {
        let ghost orig = old(self).rem();
        let mut acc: u32 = 0;
        let ghost mut taken: Seq<char> = Seq::<char>::empty();
        proof {
            assert(Seq::<char>::empty() + take_digits(self.rem()).0 =~= take_digits(
                self.rem(),
            ).0);
        }
        while self.pos < self.chars.len() && is_decimal_char(self.chars[self.pos])
            invariant
                self.wf(),
                self.chars == old(self).chars,
                orig == old(self).rem(),
                take_digits(orig).0 == taken + take_digits(self.rem()).0,
                take_digits(orig).1 == take_digits(self.rem()).1,
                acc as nat == digits_val(taken),
                self.rem().len() <= orig.len(),
            decreases self.chars@.len() - self.pos,
        {
            let c = self.chars[self.pos];
            proof {
                assert(self.rem()[0] == c);
            }
            let d: u32 = (c as u32) - 0x30;
            let wide: u64 = (acc as u64) * 10 + (d as u64);
            proof {
                assert(taken.push(c).drop_last() =~= taken);
                assert(digits_val(taken.push(c)) == digits_val(taken) * 10 + digit_val(c));
            }
            if wide > 0xFFFF_FFFF {
                proof {
                    assert(digit_val(c) == d as nat);
                    assert(wide as nat == (acc as nat) * 10 + (d as nat));
                    assert(digits_val(taken.push(c)) > u32::MAX as nat);
                    let rest0 = take_digits(self.rem()).0;
                    assert(rest0.len() > 0 && rest0[0] == c);
                    assert(taken + rest0 =~= taken.push(c) + rest0.skip(1));
                    lemma_digits_val_append(taken.push(c), rest0.skip(1));
                    assert(digits_val(take_digits(orig).0) >= digits_val(taken.push(c)));
                }
                return Err(Error::NumberOverflow);
            }
            acc = wide as u32;
            let ghost before = self.rem();
            self.pos = self.pos + 1;
            proof {
                assert(before.skip(1) =~= self.rem());
                assert(take_digits(before).0 =~= seq![c] + take_digits(self.rem()).0);
                taken = taken.push(c);
                assert((taken.drop_last()) + (seq![c] + take_digits(self.rem()).0) =~= taken
                    + take_digits(self.rem()).0);
            }
        }
        proof {
            if self.rem().len() > 0 {
                assert(self.rem()[0] == self.chars@[self.pos as int]);
            }
            assert(take_digits(self.rem()).0 =~= Seq::<char>::empty());
            assert(taken + Seq::<char>::empty() =~= taken);
            lemma_take_digits_len(orig);
        }
        Ok(Token::Number(acc))
    }

    /// Consumes a keyword or a name. The position stands on a character that
    /// does not end a name.
    fn lex_keyword_or_name(&mut self) -> (t: Token)
        requires
            old(self).wf(),
            old(self).rem().len() > 0,
            !is_name_end(old(self).rem()[0]),
        ensures
            final(self).wf(),
            t@ == word_token(take_name(old(self).rem()).0),
            final(self).rem() == take_name(old(self).rem()).1,
            final(self).rem().len() < old(self).rem().len(),
    {
        let ghost orig = old(self).rem();
        let mut word = String::new();
        proof {
            assert(Seq::<char>::empty() + take_name(self.rem()).0 =~= take_name(self.rem()).0);
        }
        while self.pos < self.chars.len() && !is_name_end_char(self.chars[self.pos])
            invariant
                self.wf(),
                self.chars == old(self).chars,
                take_name(orig).0 == word@ + take_name(self.rem()).0,
                take_name(orig).1 == take_name(self.rem()).1,
                self.rem().len() <= orig.len(),
            decreases self.chars@.len() - self.pos,
        {
            let c = self.chars[self.pos];
            proof {
                assert(self.rem()[0] == c);
            }
            string_push(&mut word, c);
            let ghost before = self.rem();
            self.pos = self.pos + 1;
            proof {
                assert(before.skip(1) =~= self.rem());
                assert(take_name(before).0 =~= seq![c] + take_name(self.rem()).0);
                assert((word@.drop_last()) + (seq![c] + take_name(self.rem()).0) =~= word@
                    + take_name(self.rem()).0);
            }
        }
        proof {
            if self.rem().len() > 0 {
                assert(self.rem()[0] == self.chars@[self.pos as int]);
            }
            assert(take_name(self.rem()).0 =~= Seq::<char>::empty());
            assert(word@ + Seq::<char>::empty() =~= word@);
            lemma_take_name_len(orig);
        }
        if str_eq(word.as_str(), "+") {
            Token::Keyword("+")
        } else if str_eq(word.as_str(), "fn") {
            Token::Keyword("fn")
        } else if str_eq(word.as_str(), "let") {
            Token::Keyword("let")
        } else if str_eq(word.as_str(), "macro") {
            Token::Keyword("macro")
        } else if str_eq(word.as_str(), "print") {
            Token::Keyword("print")
        } else {
            Token::Name(Str(word))
        }
    }

    /// Consumes leading white space and then one token, `None` at the end of
    /// the input.
    fn next_token(&mut self) -> (r: Result<Option<Token>, Error>)
        requires
            old(self).wf(),
        ensures
            final(self).wf(),
            match r {
                Ok(opt) => match opt {
                    None => lex_spec(old(self).rem()) == Some(Seq::<TokenV>::empty())
                        && final(self).rem().len() == 0,
                    Some(t) => lex_spec(old(self).rem()) == cons_tok(
                        t@,
                        lex_spec(final(self).rem()),
                    ) && final(self).rem().len() < old(self).rem().len(),
                },
                Err(e) => e == Error::NumberOverflow && lex_spec(old(self).rem()) is None,
            },
    {
        self.eat_whitespace();
        if self.done() {
            return Ok(None);
        }
        let c = self.chars[self.pos];
        proof {
            assert(self.rem().len() == self.chars@.len() - self.pos);
            assert(self.rem()[0] == c);
        }
        if c == '(' {
            self.bump();
            Ok(Some(Token::Bra))
        } else if c == ')' {
            self.bump();
            Ok(Some(Token::Ket))
        } else if c == '"' {
            let t = self.lex_string();
            Ok(Some(t))
        } else if is_decimal_char(c) {
            match self.lex_number() {
                Ok(t) => Ok(Some(t)),
                Err(e) => Err(e),
            }
        } else {
            let t = self.lex_keyword_or_name();
            Ok(Some(t))
        }
    }

    /// Consumes the whole input and returns its token sequence.
    fn lex(&mut self) -> (r: Result<Vec<Token>, Error>)
        requires
            old(self).wf(),
        ensures
            match r {
                Ok(toks) => lex_spec(old(self).rem()) == Some(toks_view(toks@)),
                Err(e) => e == Error::NumberOverflow && lex_spec(old(self).rem()) is None,
            },
    {
        let mut result: Vec<Token> = Vec::new();
        proof {
            assert(toks_view(result@) =~= Seq::<TokenV>::empty());
        }
        loop
            invariant
                self.wf(),
                lex_spec(old(self).rem()) == prepend_toks(toks_view(result@), lex_spec(self.rem())),
            decreases self.rem().len(),
        {
            if self.done() {
                proof {
                    assert(toks_view(result@) + Seq::<TokenV>::empty() =~= toks_view(result@));
                }
                return Ok(result);
            }
            let step = self.next_token();
            match step {
                Ok(Some(t)) => {
                    proof {
                        let tail = lex_spec(self.rem());
                        if tail is Some {
                            assert(toks_view(result@) + (seq![t@] + tail->Some_0) =~= toks_view(
                                result@,
                            ).push(t@) + tail->Some_0);
                        }
                        assert(toks_view(result@.push(t)) =~= toks_view(result@).push(t@));
                    }
                    result.push(t);
                },
                Ok(None) => {
                    proof {
                        assert(toks_view(result@) + Seq::<TokenV>::empty() =~= toks_view(result@));
                    }
                    return Ok(result);
                },
                Err(e) => {
                    return Err(e);
                },
            }
        }
    }
}

/// Turns source text into its token sequence; fails only where a numeral
/// does not fit in `u32`.
pub fn lex(input: &str) -> (r: Result<Vec<Token>, Error>)
    ensures
        match r {
            Ok(toks) => lex_spec(input@) == Some(toks_view(toks@)),
            Err(e) => e == Error::NumberOverflow && lex_spec(input@) is None,
        },
{
    let mut lexer = Lexer::new(input);
    lexer.lex()
}

} // verus!
