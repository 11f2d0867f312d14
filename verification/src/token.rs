//! The tokenizer: turns the characters of an expression into tokens.

use vstd::prelude::*;
use crate::text::push_char;

verus! {

/// A token of the expression language.
#[derive(Debug, PartialEq)]
pub enum Token {
    Close(char),
    Number(i32),
    Open(char),
    Operator(char),
    Variable(String),
}

/// A token with its variable name seen as a sequence of characters.
pub enum SpecToken {
    Close(char),
    Number(i32),
    Open(char),
    Operator(char),
    Variable(Seq<char>),
}

impl View for Token {
    type V = SpecToken;

    open spec fn view(&self) -> SpecToken {
        match self {
            Token::Close(c) => SpecToken::Close(*c),
            Token::Number(n) => SpecToken::Number(*n),
            Token::Open(c) => SpecToken::Open(*c),
            Token::Operator(c) => SpecToken::Operator(*c),
            Token::Variable(v) => SpecToken::Variable(v@),
        }
    }
}

/// The views of a sequence of tokens.
pub open spec fn token_views(ts: Seq<Token>) -> Seq<SpecToken> {
    ts.map_values(|t: Token| t@)
}

/// Why the characters at the current position do not form a token.
#[derive(Debug, Clone, Copy, PartialEq, Eq)]
pub enum LexError {
    /// A character that starts no token.
    InvalidCharacter(char),
    /// A run of digits whose value does not fit in an `i32`.
    NumberOverflow,
}

pub open spec fn is_digit(c: char) -> bool {
    '0' <= c <= '9'
}

pub open spec fn is_lower(c: char) -> bool {
    'a' <= c <= 'z'
}

pub open spec fn is_operator(c: char) -> bool {
    c == '+' || c == '-' || c == '*' || c == '/'
}

/// The value of a decimal digit.
pub open spec fn digit_value(c: char) -> int {
    c as int - '0' as int
}

/// `s` without its leading spaces.
pub open spec fn skip_spaces(s: Seq<char>) -> Seq<char>
    decreases s.len(),
{
    if s.len() > 0 && s[0] == ' ' {
        skip_spaces(s.drop_first())
    } else {
        s
    }
}

/// The number of leading decimal digits of `s`.
pub open spec fn digit_run(s: Seq<char>) -> nat
    decreases s.len(),
{
    if s.len() > 0 && is_digit(s[0]) {
        1 + digit_run(s.drop_first())
    } else {
        0
    }
}

/// The number of leading lowercase letters of `s`.
pub open spec fn lower_run(s: Seq<char>) -> nat
    decreases s.len(),
{
    if s.len() > 0 && is_lower(s[0]) {
        1 + lower_run(s.drop_first())
    } else {
        0
    }
}

/// The value of a string of decimal digits, most significant first.
pub open spec fn digits_value(d: Seq<char>) -> int
    decreases d.len(),
{
    if d.len() == 0 {
        0
    } else {
        digits_value(d.drop_last()) * 10 + digit_value(d.last())
    }
}

/// The outcome of reading one token.
pub enum LexStep {
    /// Only spaces are left.
    End,
    /// A token, and the characters after it.
    Token(SpecToken, Seq<char>),
    /// The next token is malformed.
    Fault(LexError),
}

/// Reading one token from `s`: leading spaces are skipped; a maximal run of
/// digits is a number, a maximal run of lowercase letters a variable (which
/// may also be written with a leading `$`, as in WAT), and `+ - * / ( )`
/// stand for themselves.
pub open spec fn lex_step(s: Seq<char>) -> LexStep {
    let t = skip_spaces(s);
    if t.len() == 0 {
        LexStep::End
    } else if is_digit(t[0]) {
        let n = digit_run(t) as int;
        let v = digits_value(t.take(n));
        if v <= i32::MAX {
            LexStep::Token(SpecToken::Number(v as i32), t.skip(n))
        } else {
            LexStep::Fault(LexError::NumberOverflow)
        }
    } else if is_lower(t[0]) {
        let n = lower_run(t) as int;
        LexStep::Token(SpecToken::Variable(t.take(n)), t.skip(n))
    } else if is_operator(t[0]) {
        LexStep::Token(SpecToken::Operator(t[0]), t.drop_first())
    } else if t[0] == '(' {
        LexStep::Token(SpecToken::Open(t[0]), t.drop_first())
    } else if t[0] == ')' {
        LexStep::Token(SpecToken::Close(t[0]), t.drop_first())
    } else if t[0] == '$' && t.len() > 1 && is_lower(t[1]) {
        let n = lower_run(t.drop_first()) as int;
        LexStep::Token(SpecToken::Variable(t.drop_first().take(n)), t.drop_first().skip(n))
    } else {
        LexStep::Fault(LexError::InvalidCharacter(t[0]))
    }
}

proof fn lemma_skip_spaces_suffix(s: Seq<char>)
    ensures
        skip_spaces(s).len() <= s.len(),
        skip_spaces(s) == s.skip(s.len() - skip_spaces(s).len()),
    decreases s.len(),
{
    if s.len() > 0 && s[0] == ' ' {
        lemma_skip_spaces_suffix(s.drop_first());
        assert(s.drop_first().skip(s.drop_first().len() - skip_spaces(s).len())
            == s.skip(s.len() - skip_spaces(s).len()));
    } else {
        assert(s.skip(0) == s);
    }
}

proof fn lemma_run_bounds(s: Seq<char>)
    ensures
        digit_run(s) <= s.len(),
        lower_run(s) <= s.len(),
    decreases s.len(),
{
    if s.len() > 0 {
        lemma_run_bounds(s.drop_first());
    }
}

/// Reading a token consumes at least one character.
pub proof fn lemma_lex_step_shrinks(s: Seq<char>)
    ensures
        lex_step(s) matches LexStep::Token(_, rest) ==> rest.len() < s.len(),
{
    lemma_skip_spaces_suffix(s);
    lemma_run_bounds(skip_spaces(s));
    if skip_spaces(s).len() > 0 {
        lemma_run_bounds(skip_spaces(s).drop_first());
    }
}

/// Unfolding `digit_run` at a digit.
proof fn lemma_digit_run_step(t: Seq<char>, k: int)
    requires
        0 <= k < t.len(),
        is_digit(t[k]),
    ensures
        digit_run(t.skip(k)) == 1 + digit_run(t.skip(k + 1)),
{
    assert(t.skip(k).drop_first() == t.skip(k + 1));
}

/// Unfolding `lower_run` at a lowercase letter.
proof fn lemma_lower_run_step(t: Seq<char>, k: int)
    requires
        0 <= k < t.len(),
        is_lower(t[k]),
    ensures
        lower_run(t.skip(k)) == 1 + lower_run(t.skip(k + 1)),
{
    assert(t.skip(k).drop_first() == t.skip(k + 1));
}

/// The characters of a digit run are digits.
proof fn lemma_digit_run_digits(t: Seq<char>)
    ensures
        digit_run(t) <= t.len(),
        forall|j: int| 0 <= j < digit_run(t) ==> is_digit(#[trigger] t[j]),
    decreases t.len(),
{
    if t.len() > 0 && is_digit(t[0]) {
        lemma_digit_run_digits(t.drop_first());
        assert forall|j: int| 0 <= j < digit_run(t) implies is_digit(#[trigger] t[j]) by {
            if j > 0 {
                assert(t[j] == t.drop_first()[j - 1]);
            }
        }
    }
}

/// A longer run of digits has a value at least as large.
proof fn lemma_digits_value_monotone(t: Seq<char>, k: int, n: int)
    requires
        0 <= k <= n <= t.len(),
        forall|j: int| 0 <= j < n ==> is_digit(#[trigger] t[j]),
    ensures
        digits_value(t.take(k)) <= digits_value(t.take(n)),
    decreases n - k,
{
    if k < n {
        lemma_digits_value_monotone(t, k + 1, n);
        assert(t.take(k + 1).drop_last() == t.take(k));
        lemma_digits_value_nonneg(t.take(k));
    }
}

proof fn lemma_digits_value_nonneg(d: Seq<char>)
    requires
        forall|j: int| 0 <= j < d.len() ==> is_digit(#[trigger] d[j]),
    ensures
        digits_value(d) >= 0,
    decreases d.len(),
{
    if d.len() > 0 {
        lemma_digits_value_nonneg(d.drop_last());
    }
}

/// All the tokens of `s`, and the error that stops reading, if any.
pub open spec fn lex_all(s: Seq<char>) -> (Seq<SpecToken>, Option<LexError>)
    decreases s.len(),
{
    match lex_step(s) {
        LexStep::End => (Seq::empty(), None),
        LexStep::Fault(e) => (Seq::empty(), Some(e)),
        LexStep::Token(t, rest) => {
            proof {
                lemma_lex_step_shrinks(s);
            }
            let (ts, err) = lex_all(rest);
            (seq![t] + ts, err)
        },
    }
}

/// What reading one token from `before` returns, leaving `after` unread.
pub open spec fn lex_outcome(
    before: Seq<char>,
    r: Result<Option<Token>, LexError>,
    after: Seq<char>,
) -> bool {
    match lex_step(before) {
        LexStep::End => r == Ok::<Option<Token>, LexError>(None) && after.len() == 0,
        LexStep::Token(t, rest) => match r {
            Ok(Some(tok)) => tok@ == t && after == rest,
            _ => false,
        },
        LexStep::Fault(e) => r == Err::<Option<Token>, LexError>(e),
    }
}

/// A tokenizer over the characters of an expression.
pub struct Tokenizer {
    chars: Vec<char>,
    pos: usize,
}

impl View for Tokenizer {
    type V = Seq<char>;

    /// The characters not read yet.
    closed spec fn view(&self) -> Seq<char> {
        self.chars@.skip(self.pos as int)
    }
}

impl Tokenizer {
    #[verifier::type_invariant]
    closed spec fn inv(self) -> bool {
        self.pos <= self.chars.len()
    }

    /// A tokenizer over the characters of `s`.
    pub fn from_str(s: &str) -> (t: Self)
        ensures
            t@ == s@,
    {
        let mut chars: Vec<char> = Vec::new();
        for c in it: s.chars()
            invariant
                chars@ == it.seq().take(it.index() as int),
        {
            chars.push(c);
        }
        let t = Tokenizer { chars, pos: 0 };
        assert(t@ == chars@);
        t
    }

    /// Reads the run of lowercase letters ahead, which is not empty.
    fn read_name(&mut self) -> (name: String)
        requires
            old(self)@.len() > 0,
            is_lower(old(self)@[0]),
        ensures
            name@ == old(self)@.take(lower_run(old(self)@) as int),
            final(self)@ == old(self)@.skip(lower_run(old(self)@) as int),
    {
        proof {
            use_type_invariant(&*self);
        }
        let ghost t = self@;
        let start = self.pos;
        let mut name = String::new();
        let c = self.chars[self.pos];
        assert(t[0] == c);
        push_char(&mut name, c);
        self.pos = self.pos + 1;
        proof {
            lemma_lower_run_step(t, 0);
        }
        assert(name@ == t.take(1));
        while self.pos < self.chars.len()
            invariant
                start < self.pos <= self.chars.len(),
                t == self.chars@.skip(start as int),
                lower_run(t) == (self.pos - start) + lower_run(t.skip(self.pos - start)),
                name@ == t.take(self.pos - start),
            ensures
                lower_run(t.skip(self.pos - start)) == 0,
            decreases self.chars.len() - self.pos,
        {
            let d = self.chars[self.pos];
            let ghost k = self.pos - start;
            assert(t[k] == d);
            if !('a' <= d && d <= 'z') {
                assert(t.skip(k)[0] == d);
                break;
            }
            push_char(&mut name, d);
            self.pos = self.pos + 1;
            proof {
                lemma_lower_run_step(t, k);
            }
            assert(name@ == t.take(k + 1));
        }
        assert(t.skip(self.pos - start) == self@);
        name
    }

    /// Reads the next token; see `lex_step` for what is read.
    pub fn try_next(&mut self) -> (r: Result<Option<Token>, LexError>)
        ensures
            lex_outcome(old(self)@, r, final(self)@),
    {
        proof {
            use_type_invariant(&*self);
        }
        let ghost before = self@;
        while self.pos < self.chars.len() && self.chars[self.pos] == ' '
            invariant
                self.pos <= self.chars.len(),
                skip_spaces(before) == skip_spaces(self@),
            decreases self.chars.len() - self.pos,
        {
            assert(self@.drop_first() == self.chars@.skip(self.pos + 1));
            self.pos = self.pos + 1;
        }
        let ghost t = self@;
        assert(skip_spaces(t) == t);
        if self.pos >= self.chars.len() {
            return Ok(None);
        }
        let start = self.pos;
        let c = self.chars[self.pos];
        assert(t[0] == c);
        if '0' <= c && c <= '9' {
            self.pos = self.pos + 1;
            let mut v: i32 = (c as u32 - '0' as u32) as i32;
            assert(t.take(1).drop_last() == t.take(0));
            assert(t.take(1).last() == c);
            assert(v == digit_value(c));
            assert(digits_value(t.take(0)) == 0);
            assert(digits_value(t.take(1)) == digit_value(c));
            proof {
                lemma_digit_run_step(t, 0);
            }
            while self.pos < self.chars.len()
                invariant
                    start < self.pos <= self.chars.len(),
                    t == self.chars@.skip(start as int),
                    skip_spaces(old(self)@) == t,
                    is_digit(t[0]),
                    forall|j: int| 0 <= j < self.pos - start ==> is_digit(#[trigger] t[j]),
                    digit_run(t) == (self.pos - start) + digit_run(t.skip(self.pos - start)),
                    0 <= v,
                    v == digits_value(t.take(self.pos - start)),
                ensures
                    digit_run(t.skip(self.pos - start)) == 0,
                decreases self.chars.len() - self.pos,
            {
                let d = self.chars[self.pos];
                let ghost k = self.pos - start;
                assert(t[k] == d);
                if !('0' <= d && d <= '9') {
                    assert(t.skip(k)[0] == d);
                    assert(digit_run(t.skip(k)) == 0);
                    break;
                }
                self.pos = self.pos + 1;
                let next = (v as i64) * 10 + (d as u32 - '0' as u32) as i64;
                assert(t.take(k + 1).drop_last() == t.take(k));
                assert(t.take(k + 1).last() == d);
                assert(next == digits_value(t.take(k + 1)));
                proof {
                    lemma_digit_run_step(t, k);
                }
                if next > i32::MAX as i64 {
                    proof {
                        lemma_digit_run_digits(t);
                        lemma_digits_value_monotone(t, k + 1, digit_run(t) as int);
                        assert(digits_value(t.take(digit_run(t) as int)) > i32::MAX);
                    }
                    return Err(LexError::NumberOverflow);
                }
                v = next as i32;
            }
            assert(t.skip(self.pos - start) == self@);
            assert(digit_run(t) == self.pos - start);
            return Ok(Some(Token::Number(v)));
        }
        if 'a' <= c && c <= 'z' {
            let name = self.read_name();
            return Ok(Some(Token::Variable(name)));
        }
        if c == '$' && self.pos + 1 < self.chars.len() {
            let d = self.chars[self.pos + 1];
            if 'a' <= d && d <= 'z' {
                self.pos = self.pos + 1;
                assert(self@ == t.drop_first());
                let name = self.read_name();
                return Ok(Some(Token::Variable(name)));
            }
        }
        let token = if c == '+' || c == '-' || c == '*' || c == '/' {
            Token::Operator(c)
        } else if c == '(' {
            Token::Open(c)
        } else if c == ')' {
            Token::Close(c)
        } else {
            return Err(LexError::InvalidCharacter(c));
        };
        self.pos = self.pos + 1;
        assert(t.drop_first() == self@);
        Ok(Some(token))
    }

    /// Reads the next token, where the characters ahead form one or are only spaces.
    pub fn next(&mut self) -> (r: Option<Token>)
        requires
            !(lex_step(old(self)@) is Fault),
        ensures
            lex_outcome(old(self)@, Ok::<Option<Token>, LexError>(r), final(self)@),
    {
        match self.try_next() {
            Ok(t) => t,
            Err(_) => None,
        }
    }

    /// All the remaining tokens, or the error that stops reading.
    pub fn try_collect(self) -> (r: Result<Vec<Token>, LexError>)
        ensures
            match lex_all(self@) {
                (ts, None) => r matches Ok(v) && token_views(v@) == ts,
                (_, Some(e)) => r == Err::<Vec<Token>, LexError>(e),
            },
    {
        let mut this = self;
        let mut tokens: Vec<Token> = Vec::new();
        loop
            invariant
                lex_all(self@) == (token_views(tokens@) + lex_all(this@).0, lex_all(this@).1),
            decreases this@.len(),
        {
            let ghost before = this@;
            let r = this.try_next();
            proof {
                lemma_lex_all_outcome(before, r, this@);
                lemma_lex_step_shrinks(before);
            }
            match r {
                Ok(Some(t)) => {
                    let ghost old_tokens = tokens@;
                    let ghost tv = t@;
                    tokens.push(t);
                    assert(token_views(tokens@) == token_views(old_tokens).push(tv));
                    assert(token_views(tokens@) + lex_all(this@).0
                        == token_views(old_tokens) + (seq![tv] + lex_all(this@).0));
                },
                Ok(None) => {
                    assert(token_views(tokens@) + Seq::<SpecToken>::empty() == token_views(tokens@));
                    return Ok(tokens);
                },
                Err(e) => {
                    return Err(e);
                },
            }
        }
    }

    /// All the remaining tokens, where every one of them is well formed.
    pub fn collect(self) -> (v: Vec<Token>)
        requires
            lex_all(self@).1 is None,
        ensures
            token_views(v@) == lex_all(self@).0,
    {
        match self.try_collect() {
            Ok(v) => v,
            Err(_) => Vec::new(),
        }
    }

    /// A token stream that reads tokens from this tokenizer as they are needed.
    pub fn peekable(self) -> (s: TokenStream)
        ensures
            s@ == lex_all(self@),
    {
        let s = TokenStream { buffered: Vec::new(), source: self };
        assert(token_views(s.buffered@).reverse() + lex_all(self@).0 == lex_all(self@).0);
        s
    }
}

/// How `lex_all` unfolds over one step of reading.
proof fn lemma_lex_all_outcome(before: Seq<char>, r: Result<Option<Token>, LexError>, after: Seq<char>)
    requires
        lex_outcome(before, r, after),
    ensures
        r matches Ok(Some(t)) ==> lex_all(before) == (seq![t@] + lex_all(after).0, lex_all(after).1),
        r matches Ok(None) ==> lex_all(before) == (Seq::<SpecToken>::empty(), None::<LexError>)
            && lex_all(after) == lex_all(before),
        r matches Err(e) ==> lex_all(before) == (Seq::<SpecToken>::empty(), Some(e)),
{
    if r is Ok && r->Ok_0 is None {
        assert(skip_spaces(after) == after);
    }
}

/// A stream of tokens with one token of look-ahead: tokens handed over up
/// front, followed by those a tokenizer reads on demand.
pub struct TokenStream {
    /// Tokens not handed out yet, the next one last.
    buffered: Vec<Token>,
    source: Tokenizer,
}

impl View for TokenStream {
    /// The tokens still to come, and the error that stops the stream, if any.
    type V = (Seq<SpecToken>, Option<LexError>);

    closed spec fn view(&self) -> (Seq<SpecToken>, Option<LexError>) {
        (token_views(self.buffered@).reverse() + lex_all(self.source@).0, lex_all(self.source@).1)
    }
}

impl TokenStream {
    /// A stream of the given tokens, in order.
    pub fn new(tokens: Vec<Token>) -> (s: Self)
        ensures
            s@ == (token_views(tokens@), None::<LexError>),
    {
        let mut tokens = tokens;
        let ghost all = tokens@;
        let mut buffered: Vec<Token> = Vec::new();
        while tokens.len() > 0
            invariant
                all == tokens@ + buffered@.reverse(),
            decreases tokens.len(),
        {
            let ghost old_tokens = tokens@;
            let ghost old_buffered = buffered@;
            let t = tokens.pop().unwrap();
            buffered.push(t);
            assert(buffered@.reverse() == seq![t] + old_buffered.reverse());
            assert(old_tokens == tokens@ + seq![t]);
        }
        assert(token_views(buffered@).reverse() == token_views(all));
        let source = Tokenizer { chars: Vec::new(), pos: 0 };
        assert(source@.len() == 0);
        assert(skip_spaces(source@) == source@);
        let s = TokenStream { buffered, source };
        s
    }

    /// Hands out the next token: `Ok(None)` once the stream has ended, `Err`
    /// where the tokenizer meets a malformed token.
    pub fn next(&mut self) -> (r: Result<Option<Token>, LexError>)
        ensures
            stream_outcome(old(self)@, r, final(self)@),
    {
        if self.buffered.len() > 0 {
            let ghost old_buffered = self.buffered@;
            let t = self.buffered.pop().unwrap();
            let ghost rest = lex_all(self.source@).0;
            assert(token_views(old_buffered).reverse() == seq![t@] + token_views(self.buffered@).reverse());
            assert(token_views(old_buffered).reverse() + rest
                == seq![t@] + (token_views(self.buffered@).reverse() + rest));
            assert((seq![t@] + (token_views(self.buffered@).reverse() + rest)).drop_first()
                == token_views(self.buffered@).reverse() + rest);
            return Ok(Some(t));
        }
        let ghost before = self.source@;
        assert(token_views(self.buffered@).reverse() =~= Seq::<SpecToken>::empty());
        let r = self.source.try_next();
        proof {
            lemma_lex_all_outcome(before, r, self.source@);
            assert(token_views(self.buffered@).reverse() =~= Seq::<SpecToken>::empty());
            if r is Ok && r->Ok_0 is Some {
                assert((seq![r->Ok_0->Some_0@] + lex_all(self.source@).0).drop_first()
                    == lex_all(self.source@).0);
            }
        }
        r
    }

    /// Looks at the next token without handing it out: `Ok(Some(c))` where it
    /// is the operator `c`, `Ok(None)` where it is another token or the stream
    /// has ended, `Err` where the tokenizer meets a malformed token.
    pub fn peek_operator(&mut self) -> (r: Result<Option<char>, LexError>)
        ensures
            peek_outcome(old(self)@, r),
            r is Ok ==> final(self)@ == old(self)@,
    {
        if self.buffered.len() == 0 {
            let ghost before = self.source@;
            let r = self.source.try_next();
            proof {
                lemma_lex_all_outcome(before, r, self.source@);
            }
            match r {
                Ok(Some(t)) => {
                    self.buffered.push(t);
                    assert(token_views(self.buffered@).reverse() == seq![t@]);
                },
                Ok(None) => {
                    return Ok(None);
                },
                Err(e) => {
                    return Err(e);
                },
            }
        }
        let last = self.buffered.len() - 1;
        assert(token_views(self.buffered@).reverse()[0] == self.buffered@[last as int]@);
        match &self.buffered[last] {
            Token::Operator(c) => Ok(Some(*c)),
            _ => Ok(None),
        }
    }
}

/// What taking a token from a stream seen as `before` returns, leaving it
/// seen as `after`.
pub open spec fn stream_outcome(
    before: (Seq<SpecToken>, Option<LexError>),
    r: Result<Option<Token>, LexError>,
    after: (Seq<SpecToken>, Option<LexError>),
) -> bool {
    if before.0.len() > 0 {
        r matches Ok(Some(t)) && t@ == before.0[0] && after == (before.0.drop_first(), before.1)
    } else {
        match before.1 {
            None => r == Ok::<Option<Token>, LexError>(None) && after == before,
            Some(e) => r == Err::<Option<Token>, LexError>(e),
        }
    }
}

/// What looking at the next operator of a stream seen as `before` returns.
pub open spec fn peek_outcome(
    before: (Seq<SpecToken>, Option<LexError>),
    r: Result<Option<char>, LexError>,
) -> bool {
    if before.0.len() > 0 {
        r == Ok::<Option<char>, LexError>(
            match before.0[0] {
                SpecToken::Operator(c) => Some(c),
                _ => None,
            },
        )
    } else {
        match before.1 {
            None => r == Ok::<Option<char>, LexError>(None),
            Some(e) => r == Err::<Option<char>, LexError>(e),
        }
    }
}

} // verus!
