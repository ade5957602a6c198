//! Lexer: turns configuration text into a flat token stream, stripping
//! whitespace and `#` line comments and tracking line numbers. Any text is
//! tokenizable; the grammar is enforced downstream.

use vstd::prelude::*;

verus! {

#[derive(Debug, PartialEq, Eq, Clone, Copy, Structural)]
pub enum TokenType {
    LBrace,
    RBrace,
    Semicolon,
    Ident,
}

/// One lexical token: its kind, the length of its lexeme in characters, the
/// lexeme itself, and the line it was read on (the first line is 1).
#[derive(Debug, PartialEq, Clone)]
pub struct Token {
    pub kind: TokenType,
    pub len: usize,
    pub lexeme: String,
    pub number_line: usize,
}

/// Mathematical image of a `Token`.
#[verifier::ext_equal]
pub ghost struct SpecToken {
    pub kind: TokenType,
    pub len: int,
    pub lexeme: Seq<char>,
    pub line: int,
}

impl View for Token {
    type V = SpecToken;

    open spec fn view(&self) -> SpecToken {
        SpecToken {
            kind: self.kind,
            len: self.len as int,
            lexeme: self.lexeme@,
            line: self.number_line as int,
        }
    }
}

/// The views of a token sequence.
pub open spec fn tokens_view(ts: Seq<Token>) -> Seq<SpecToken> {
    ts.map_values(|t: Token| t@)
}

/// The whitespace characters that delimit identifiers: the Unicode
/// White_Space set.
pub open spec fn is_space_char(c: char) -> bool {
    c == ' ' || c == '\t' || c == '\n' || c == '\r' || c == '\u{b}' || c == '\u{c}' || c
        == '\u{85}' || c == '\u{a0}' || c == '\u{1680}' || ('\u{2000}' <= c && c <= '\u{200a}')
        || c == '\u{2028}' || c == '\u{2029}' || c == '\u{202f}' || c == '\u{205f}' || c
        == '\u{3000}'
}

/// The kind of a punctuation character, if `c` is one.
pub open spec fn spec_punct(c: char) -> Option<TokenType> {
    if c == '{' {
        Some(TokenType::LBrace)
    } else if c == '}' {
        Some(TokenType::RBrace)
    } else if c == ';' {
        Some(TokenType::Semicolon)
    } else {
        None
    }
}

/// Characters that extend an identifier.
pub open spec fn is_word_char(c: char) -> bool {
    !is_space_char(c) && spec_punct(c) is None && c != '#'
}

/// The token emitted for a pending word, if one is pending.
pub open spec fn flush_word(word: Seq<char>, line: int) -> Seq<SpecToken> {
    if word.len() > 0 {
        seq![
            SpecToken { kind: TokenType::Ident, len: word.len() as int, lexeme: word, line },
        ]
    } else {
        Seq::empty()
    }
}

/// Tokens of `s` from position `i` on, on line `line`, with the pending
/// (not yet emitted) word `word` read just before `i`.
pub open spec fn spec_tokenize_at(s: Seq<char>, i: int, line: int, word: Seq<char>) -> Seq<
    SpecToken,
>
    decreases s.len() - i, 1int,
{
    if !(0 <= i < s.len()) {
        flush_word(word, line)
    } else {
        let c = s[i];
        if c == '\n' {
            flush_word(word, line) + spec_tokenize_at(s, i + 1, line + 1, Seq::empty())
        } else if is_space_char(c) {
            flush_word(word, line) + spec_tokenize_at(s, i + 1, line, Seq::empty())
        } else if c == '#' {
            flush_word(word, line) + spec_skip_comment(s, i + 1, line)
        } else if spec_punct(c) is Some {
            flush_word(word, line) + seq![
                SpecToken { kind: spec_punct(c)->0, len: 1, lexeme: seq![c], line },
            ] + spec_tokenize_at(s, i + 1, line, Seq::empty())
        } else {
            spec_tokenize_at(s, i + 1, line, word.push(c))
        }
    }
}

/// Tokens of `s` after a `#`: the rest of the line is dropped.
pub open spec fn spec_skip_comment(s: Seq<char>, i: int, line: int) -> Seq<SpecToken>
    decreases s.len() - i, 0int,
{
    if !(0 <= i < s.len()) {
        Seq::empty()
    } else if s[i] == '\n' {
        spec_tokenize_at(s, i + 1, line + 1, Seq::empty())
    } else {
        spec_skip_comment(s, i + 1, line)
    }
}

/// The token stream of `s`, starting on line 1.
pub open spec fn spec_tokenize(s: Seq<char>) -> Seq<SpecToken> {
    spec_tokenize_at(s, 0, 1, Seq::empty())
}

/// The pending word of the scanner: the characters from `ws` (when set) up to
/// the current position `end`.
pub open spec fn word_at(s: Seq<char>, ws: Option<usize>, end: int) -> Seq<char> {
    match ws {
        Some(w) => s.subrange(w as int, end),
        None => Seq::empty(),
    }
}

/// The kind of a punctuation character, or `None` for any other character.
pub fn punct_token_type(c: char) -> (r: Option<TokenType>)
    ensures
        r == spec_punct(c),
{
    if c == '{' {
        Some(TokenType::LBrace)
    } else if c == '}' {
        Some(TokenType::RBrace)
    } else if c == ';' {
        Some(TokenType::Semicolon)
    } else {
        None
    }
}

fn is_space(c: char) -> (r: bool)
    ensures
        r == is_space_char(c),
{
    c == ' ' || c == '\t' || c == '\n' || c == '\r' || c == '\u{b}' || c == '\u{c}' || c
        == '\u{85}' || c == '\u{a0}' || c == '\u{1680}' || ('\u{2000}' <= c && c <= '\u{200a}')
        || c == '\u{2028}' || c == '\u{2029}' || c == '\u{202f}' || c == '\u{205f}' || c
        == '\u{3000}'
}

/// Emits the pending word (if any) as an `Ident` token and clears it.
fn flush(tokens: &mut Vec<Token>, input: &str, start: &mut Option<usize>, end: usize, line: usize)
    requires
        end <= input@.len(),
        match *old(start) {
            Some(ws) => ws < end,
            None => true,
        },
    ensures
        (*final(start)) is None,
        tokens_view(final(tokens)@) == tokens_view(old(tokens)@) + flush_word(
            word_at(input@, *old(start), end as int),
            line as int,
        ),
{
    match *start {
        Some(ws) => {
            let lexeme = input.substring_char(ws, end).to_owned();
            let token = Token { kind: TokenType::Ident, len: end - ws, lexeme, number_line: line };
            proof {
                assert(token@.lexeme =~= word_at(input@, *old(start), end as int));
            }
            tokens.push(token);
            *start = None;
            proof {
                assert(tokens_view(tokens@) =~~= tokens_view(old(tokens)@) + flush_word(
                    word_at(input@, *old(start), end as int),
                    line as int,
                ));
            }
        },
        None => {
            proof {
                assert(tokens_view(tokens@) =~~= tokens_view(old(tokens)@) + flush_word(
                    word_at(input@, *old(start), end as int),
                    line as int,
                ));
            }
        },
    }
}

impl Token {
    /// Scans `input` into its token stream.
    pub fn tokenize(input: &str) -> (r: Vec<Token>)
        requires
            input@.len() < usize::MAX,
        ensures
            tokens_view(r@) == spec_tokenize(input@),
    {
        let n = input.unicode_len();
        let mut tokens: Vec<Token> = Vec::new();
        let mut line: usize = 1;
        let mut word_start: Option<usize> = None;
        let mut i: usize = 0;
        proof {
            assert(tokens_view(tokens@) =~= Seq::<SpecToken>::empty());
            assert(Seq::<SpecToken>::empty() + spec_tokenize(input@) =~= spec_tokenize(input@));
        }
        while i < n
            invariant
                n == input@.len(),
                n < usize::MAX,
                i <= n,
                1 <= line,
                line <= i + 1,
                match word_start {
                    Some(ws) => ws < i && forall|k: int|
                        ws <= k < i ==> is_word_char(#[trigger] input@[k]),
                    None => true,
                },
                tokens_view(tokens@) + spec_tokenize_at(
                    input@,
                    i as int,
                    line as int,
                    word_at(input@, word_start, i as int),
                ) == spec_tokenize(input@),
            decreases n - i,
        {
            let ghost word0 = word_at(input@, word_start, i as int);
            let c = input.get_char(i);
            if c == '\n' {
                flush(&mut tokens, input, &mut word_start, i, line);
                proof {
                    assert(tokens_view(tokens@) + spec_tokenize_at(
                        input@,
                        i + 1,
                        line + 1,
                        word_at(input@, word_start, i + 1),
                    ) =~~= spec_tokenize(input@));
                }
                line = line + 1;
                i = i + 1;
            } else if is_space(c) {
                flush(&mut tokens, input, &mut word_start, i, line);
                proof {
                    assert(tokens_view(tokens@) + spec_tokenize_at(
                        input@,
                        i + 1,
                        line as int,
                        word_at(input@, word_start, i + 1),
                    ) =~~= spec_tokenize(input@));
                }
                i = i + 1;
            } else if c == '#' {
                flush(&mut tokens, input, &mut word_start, i, line);
                proof {
                    assert(tokens_view(tokens@) + spec_skip_comment(input@, i + 1, line as int)
                        =~~= spec_tokenize(input@));
                }
                i = i + 1;
                let ghost i_comment = i as int;
                loop
                    invariant_except_break
                        line <= i,
                        tokens_view(tokens@) + spec_skip_comment(input@, i as int, line as int)
                            == spec_tokenize(input@),
                    invariant
                        n == input@.len(),
                        n < usize::MAX,
                        i_comment <= i <= n,
                        1 <= line,
                        word_start is None,
                    ensures
                        line <= i + 1,
                        i_comment <= i,
                        tokens_view(tokens@) + spec_tokenize_at(
                            input@,
                            i as int,
                            line as int,
                            word_at(input@, word_start, i as int),
                        ) == spec_tokenize(input@),
                    decreases n - i,
                {
                    if i >= n {
                        proof {
                            assert(spec_skip_comment(input@, i as int, line as int)
                                =~= spec_tokenize_at(
                                input@,
                                i as int,
                                line as int,
                                word_at(input@, word_start, i as int),
                            ));
                        }
                        break ;
                    }
                    let cc = input.get_char(i);
                    if cc == '\n' {
                        proof {
                            assert(tokens_view(tokens@) + spec_tokenize_at(
                                input@,
                                i + 1,
                                line + 1,
                                word_at(input@, word_start, i + 1),
                            ) =~~= spec_tokenize(input@));
                        }
                        line = line + 1;
                        i = i + 1;
                        break ;
                    }
                    i = i + 1;
                }
            } else {
                let punct = punct_token_type(c);
                match punct {
                    Some(kind) => {
                        flush(&mut tokens, input, &mut word_start, i, line);
                        let lexeme = input.substring_char(i, i + 1).to_owned();
                        let token = Token { kind, len: 1, lexeme, number_line: line };
                        proof {
                            assert(token@.lexeme =~= seq![input@[i as int]]);
                            let emitted = seq![
                                SpecToken {
                                    kind: spec_punct(input@[i as int])->0,
                                    len: 1,
                                    lexeme: seq![input@[i as int]],
                                    line: line as int,
                                },
                            ];
                            assert(tokens_view(tokens@.push(token)) =~~= tokens_view(tokens@)
                                + emitted);
                        }
                        tokens.push(token);
                        proof {
                            assert(tokens_view(tokens@) + spec_tokenize_at(
                                input@,
                                i + 1,
                                line as int,
                                word_at(input@, word_start, i + 1),
                            ) =~~= spec_tokenize(input@));
                        }
                        i = i + 1;
                    },
                    None => {
                        if word_start.is_none() {
                            word_start = Some(i);
                        }
                        proof {
                            assert(word_at(input@, word_start, i + 1) =~= word0.push(
                                input@[i as int],
                            ));
                        }
                        i = i + 1;
                    },
                }
            }
        }
        flush(&mut tokens, input, &mut word_start, n, line);
        proof {
            assert(tokens_view(tokens@) =~~= spec_tokenize(input@));
        }
        tokens
    }
}

} // verus!
