use vstd::prelude::*;

verus! {

/// Whether `c` has the Unicode White_Space property: the ASCII controls
/// tab to carriage return, space, next line, no-break space, ogham space
/// mark, the spaces from en quad to hair space, the line and paragraph
/// separators, narrow no-break space, medium mathematical space and
/// ideographic space.
pub open spec fn whitespace(c: char) -> bool {
    ('\u{9}' <= c && c <= '\u{d}') || c == ' ' || c == '\u{85}' || c == '\u{a0}' || c
        == '\u{1680}' || ('\u{2000}' <= c && c <= '\u{200a}') || c == '\u{2028}' || c
        == '\u{2029}' || c == '\u{202f}' || c == '\u{205f}' || c == '\u{3000}'
}

/// Whether `c` has the Unicode Alphabetic property.
pub uninterp spec fn alphabetic(c: char) -> bool;

/// Whether `c` is alphabetic or numeric in the Unicode sense.
pub uninterp spec fn alphanumeric(c: char) -> bool;

/// The Unicode lowercase mapping of a word.
pub uninterp spec fn lowercase_of(s: Seq<char>) -> Seq<char>;

/// The root that the English Snowball stemmer gives for a lowercase word.
pub uninterp spec fn english_stem(s: Seq<char>) -> Seq<char>;

/// Whether `c` is one of the ASCII digits `0` to `9`.
pub open spec fn ascii_digit(c: char) -> bool {
    '0' <= c && c <= '9'
}

/// Length of the longest run of characters satisfying `p` that starts at `k`.
pub open spec fn run_len(s: Seq<char>, k: int, p: spec_fn(char) -> bool) -> nat
    decreases s.len() - k,
{
    if 0 <= k < s.len() && p(s[k]) {
        1 + run_len(s, k + 1, p)
    } else {
        0
    }
}

/// Number of characters that the token starting at `i` covers (at least one).
pub open spec fn token_len(s: Seq<char>, i: int) -> nat {
    if ascii_digit(s[i]) {
        1 + run_len(s, i + 1, |c: char| ascii_digit(c))
    } else if alphabetic(s[i]) {
        1 + run_len(s, i + 1, |c: char| alphanumeric(c))
    } else {
        1
    }
}

/// The text of the token covering `s[i..i + token_len(s, i)]`.
pub open spec fn token_text(s: Seq<char>, i: int) -> Seq<char> {
    let raw = s.subrange(i, i + token_len(s, i));
    if ascii_digit(s[i]) {
        raw
    } else if alphabetic(s[i]) {
        english_stem(lowercase_of(raw))
    } else {
        raw
    }
}

/// The tokens of `s` from position `i` on.
pub open spec fn tokens_from(s: Seq<char>, i: int) -> Seq<Seq<char>>
    decreases s.len() - i,
    via tokens_from_decreases
{
    if i < 0 || i >= s.len() {
        Seq::empty()
    } else if whitespace(s[i]) {
        tokens_from(s, i + 1)
    } else {
        seq![token_text(s, i)] + tokens_from(s, i + token_len(s, i))
    }
}

#[via_fn]
proof fn tokens_from_decreases(s: Seq<char>, i: int) {
    if 0 <= i < s.len() && !whitespace(s[i]) {
        lemma_token_len_bound(s, i);
    }
}

/// The full token sequence of a text.
pub open spec fn tokens(s: Seq<char>) -> Seq<Seq<char>> {
    tokens_from(s, 0)
}

/// Whether `c` is whitespace; agrees with `char::is_whitespace`.
pub fn is_space(c: char) -> (r: bool)
    ensures
        r == whitespace(c),
{
    ('\u{9}' <= c && c <= '\u{d}') || c == ' ' || c == '\u{85}' || c == '\u{a0}' || c
        == '\u{1680}' || ('\u{2000}' <= c && c <= '\u{200a}') || c == '\u{2028}' || c
        == '\u{2029}' || c == '\u{202f}' || c == '\u{205f}' || c == '\u{3000}'
}

/// Relies on `char::is_alphabetic` to find where a word starts.
#[verifier::external_body]
fn is_alpha(c: char) -> (r: bool)
    ensures
        r == alphabetic(c),
{
    c.is_alphabetic()
}

/// Relies on `char::is_alphanumeric` to find where a word goes on; as
/// documented, it holds of every alphabetic character.
#[verifier::external_body]
fn is_alnum(c: char) -> (r: bool)
    ensures
        r == alphanumeric(c),
        alphabetic(c) ==> r,
{
    c.is_alphanumeric()
}

/// Relies on `str::to_lowercase` to fold a word's case; the result depends
/// on the characters alone.
#[verifier::external_body]
fn to_lower(s: &str) -> (r: String)
    ensures
        r@ == lowercase_of(s@),
{
    s.to_lowercase()
}

/// Relies on `rust_stemmers::Stemmer::create` with `Algorithm::English` and
/// on `Stemmer::stem` to reduce a lowercase word to its root.
#[verifier::external_body]
fn stem_word(s: &str) -> (r: String)
    ensures
        r@ == english_stem(s@),
{
    rust_stemmers::Stemmer::create(rust_stemmers::Algorithm::English).stem(s).into_owned()
}

/// Relies on `String::push` to append one character to a token's text.
#[verifier::external_body]
fn push_char(s: &mut String, c: char)
    ensures
        final(s)@ == old(s)@.push(c),
{
    s.push(c)
}

/// A run never reaches past the end of the text.
pub proof fn lemma_run_len_bound(s: Seq<char>, k: int, p: spec_fn(char) -> bool)
    requires
        0 <= k <= s.len(),
    ensures
        k + run_len(s, k, p) <= s.len(),
    decreases s.len() - k,
{
    if k < s.len() && p(s[k]) {
        lemma_run_len_bound(s, k + 1, p);
    }
}

/// A token never reaches past the end of the text.
pub proof fn lemma_token_len_bound(s: Seq<char>, i: int)
    requires
        0 <= i < s.len(),
    ensures
        i + token_len(s, i) <= s.len(),
{
    lemma_run_len_bound(s, i + 1, |c: char| ascii_digit(c));
    lemma_run_len_bound(s, i + 1, |c: char| alphanumeric(c));
}

/// There are never more tokens than characters.
pub proof fn lemma_tokens_from_len(s: Seq<char>, i: int)
    requires
        0 <= i,
    ensures
        tokens_from(s, i).len() <= if i < s.len() { s.len() - i } else { 0 },
    decreases s.len() - i,
{
    if i < s.len() {
        if whitespace(s[i]) {
            lemma_tokens_from_len(s, i + 1);
        } else {
            lemma_token_len_bound(s, i);
            lemma_tokens_from_len(s, i + token_len(s, i));
        }
    }
}

/// A single-pass cursor over a text that yields its tokens one by one.
pub struct Lexer {
    chars: Vec<char>,
    pos: usize,
}

impl Lexer {
    /// The text this lexer reads.
    pub closed spec fn input(&self) -> Seq<char> {
        self.chars@
    }

    /// The tokens this lexer has yet to yield.
    pub closed spec fn remaining(&self) -> Seq<Seq<char>> {
        tokens_from(self.chars@, self.pos as int)
    }

    /// A lexer at the start of `input`.
    pub fn new(input: &str) -> (r: Lexer)
        ensures
            r.input() == input@,
            r.remaining() == tokens(input@),
    {
        let mut chars: Vec<char> = Vec::new();
        for c in it: input.chars()
            invariant
                chars@ == it.seq().take(it.index() as int),
        {
            chars.push(c);
        }
        Lexer { chars, pos: 0 }
    }

    /// Skips the whitespace at the cursor.
    fn trim_left(&mut self)
        ensures
            final(self).chars@ == old(self).chars@,
            final(self).remaining() == old(self).remaining(),
            final(self).pos >= old(self).pos,
            forall|k: int| old(self).pos <= k < final(self).pos ==> whitespace(#[trigger] old(self).chars@[k]),
            final(self).pos < final(self).chars@.len() ==> !whitespace(final(self).chars@[final(self).pos as int]),
    {
        let len = self.chars.len();
        while self.pos < len && is_space(self.chars[self.pos])
            invariant
                self.chars@ == old(self).chars@,
                len == self.chars@.len(),
                self.remaining() == old(self).remaining(),
                self.pos >= old(self).pos,
                self.pos <= len || self.pos == old(self).pos,
                forall|k: int| old(self).pos <= k < self.pos ==> whitespace(#[trigger] old(self).chars@[k]),
            decreases len - self.pos,
        {
            self.pos = self.pos + 1;
        }
    }

    /// Consumes the character at the cursor and, where it passes the test
    /// (an ASCII digit, or with `alnum` an alphanumeric character), the run
    /// of passing characters after it; gives the text consumed. A first
    /// character that fails the test is consumed alone.
    fn chop_while(&mut self, alnum: bool) -> (r: String)
        requires
            old(self).pos < old(self).chars@.len(),
        ensures
            final(self).chars@ == old(self).chars@,
            r@ == old(self).chars@.subrange(old(self).pos as int, final(self).pos as int),
            ({
                let s = old(self).chars@;
                let c0 = s[old(self).pos as int];
                &&& alnum && alphanumeric(c0) ==> final(self).pos == old(self).pos + 1 + run_len(
                    s,
                    old(self).pos + 1,
                    |c: char| alphanumeric(c),
                )
                &&& !alnum && ascii_digit(c0) ==> final(self).pos == old(self).pos + 1 + run_len(
                    s,
                    old(self).pos + 1,
                    |c: char| ascii_digit(c),
                )
                &&& (if alnum { !alphanumeric(c0) } else { !ascii_digit(c0) }) ==> final(self).pos
                    == old(self).pos + 1
                &&& alnum ==> (alphabetic(c0) ==> alphanumeric(c0))
            }),
    {
        let len = self.chars.len();
        let ghost s = self.chars@;
        let start = self.pos;
        let first = self.chars[start];
        let mut text = String::new();
        push_char(&mut text, first);
        self.pos = start + 1;
        if alnum {
            if is_alnum(first) {
                while self.pos < len && is_alnum(self.chars[self.pos])
                    invariant
                        self.chars@ == s,
                        len == s.len(),
                        start < self.pos <= len,
                        text@ == s.subrange(start as int, self.pos as int),
                        self.pos + run_len(s, self.pos as int, |c: char| alphanumeric(c))
                            == start + 1 + run_len(s, start + 1, |c: char| alphanumeric(c)),
                    decreases len - self.pos,
                {
                    push_char(&mut text, self.chars[self.pos]);
                    self.pos = self.pos + 1;
                }
            }
        } else if ascii_digit_exec(first) {
            while self.pos < len && ascii_digit_exec(self.chars[self.pos])
                invariant
                    self.chars@ == s,
                    len == s.len(),
                    start < self.pos <= len,
                    text@ == s.subrange(start as int, self.pos as int),
                    self.pos + run_len(s, self.pos as int, |c: char| ascii_digit(c))
                        == start + 1 + run_len(s, start + 1, |c: char| ascii_digit(c)),
                decreases len - self.pos,
            {
                push_char(&mut text, self.chars[self.pos]);
                self.pos = self.pos + 1;
            }
        }
        proof {
            if self.pos == start + 1 {
                assert(text@ =~= s.subrange(start as int, self.pos as int));
            }
        }
        text
    }

    /// Yields the next token, or `None` once the input is used up.
    pub fn next_token(&mut self) -> (r: Option<String>)
        ensures
            final(self).input() == old(self).input(),
            old(self).input().len() <= usize::MAX,
            old(self).remaining().len() == 0 ==> r is None && final(self).remaining().len() == 0,
            old(self).remaining().len() > 0 ==> r is Some && r->0@ == old(self).remaining()[0]
                && final(self).remaining() == old(self).remaining().drop_first(),
    {
        let len = self.chars.len();
        self.trim_left();
        if self.pos >= len {
            return None;
        }
        let c = self.chars[self.pos];
        proof {
            lemma_token_len_bound(self.chars@, self.pos as int);
        }
        if ascii_digit_exec(c) {
            Some(self.chop_while(false))
        } else if is_alpha(c) {
            let raw = self.chop_while(true);
            let lower = to_lower(raw.as_str());
            Some(stem_word(lower.as_str()))
        } else {
            let mut text = String::new();
            push_char(&mut text, c);
            self.pos = self.pos + 1;
            proof {
                assert(text@ =~= self.chars@.subrange(self.pos - 1, self.pos as int));
            }
            Some(text)
        }
    }
}

fn ascii_digit_exec(c: char) -> (r: bool)
    ensures
        r == ascii_digit(c),
{
    '0' <= c && c <= '9'
}

/// Tokenizes a whole text with a fresh lexer.
pub fn tokenize(input: &str) -> (r: Vec<String>)
    ensures
        r@.map_values(|t: String| t@) == tokens(input@),
{
    let mut lexer = Lexer::new(input);
    let mut out: Vec<String> = Vec::new();
    loop
        invariant
            lexer.input() == input@,
            out@.map_values(|t: String| t@) + lexer.remaining() == tokens(input@),
        decreases lexer.remaining().len(),
    {
        match lexer.next_token() {
            Some(t) => {
                out.push(t);
            },
            None => {
                return out;
            },
        }
    }
}

/// Tokenizing is deterministic: a fresh lexer over a text yields exactly
/// `tokens` of that text (see `Lexer::new` and `Lexer::next_token`), so two
/// fresh passes over the same text yield the same token sequence.
pub proof fn lemma_tokens_deterministic(first: Seq<char>, second: Seq<char>)
    requires
        first == second,
    ensures
        tokens(first) == tokens(second),
{
}

} // verus!
